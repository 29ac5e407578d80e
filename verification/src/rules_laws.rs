//! What holds of every rules file.

use vstd::prelude::*;

use crate::config::{no_shapes, LayerCfg, LayerView, ShapeView};
use crate::dbu::dbu_of;
use crate::json::{parsed_json, Doc, Json};
use crate::rules::{
    entry_of, field, layer_rules, numbers_in, rules_in, rules_text, shape_rules, targets_of,
    texts_among, with_names,
};

verus! {

/// Rules under several names: those names have the new rules, the others keep theirs.
proof fn lemma_with_names(
    rules: Map<Seq<char>, LayerView>,
    names: Seq<Seq<char>>,
    cfg: LayerView,
    name: Seq<char>,
)
    ensures
        with_names(rules, names, cfg).dom().contains(name) <==> rules.dom().contains(name)
            || names.contains(name),
        names.contains(name) ==> with_names(rules, names, cfg)[name] == cfg,
        !names.contains(name) && rules.dom().contains(name) ==> with_names(rules, names, cfg)[name]
            == rules[name],
    decreases names.len(),
{
    if names.len() > 0 {
        lemma_with_names(rules, names.drop_last(), cfg, name);
        let last = names.len() - 1;
        assert(names[last] == names.last());
        if names.contains(name) && name != names.last() {
            let i = choose|i: int| 0 <= i < names.len() && names[i] == name;
            assert(names.drop_last()[i] == name);
        }
        if names.drop_last().contains(name) {
            let i = choose|i: int| 0 <= i < names.drop_last().len() && names.drop_last()[i] == name;
            assert(names[i] == name);
        }
    }
}

/// Whether the entry applies to the layer of this name.
pub open spec fn applies(entries: Seq<(Seq<char>, Doc)>, i: int, name: Seq<char>) -> bool {
    targets_of(entries[i].0, entries[i].1).contains(name)
}

/// Whether entry `i` is the last one that applies to the layer, and states these rules.
pub open spec fn rules_from(
    entries: Seq<(Seq<char>, Doc)>,
    i: int,
    dbu: i32,
    name: Seq<char>,
    cfg: LayerView,
) -> bool {
    &&& 0 <= i < entries.len()
    &&& applies(entries, i, name)
    &&& forall|j: int| i < j < entries.len() ==> !#[trigger] applies(entries, j, name)
    &&& layer_rules(entries[i].0, entries[i].1, dbu) == Ok::<LayerView, Seq<char>>(cfg)
}

/// A layer has rules exactly where some entry applies to it, and they are those of the last entry
/// that does.
pub proof fn law_rules_of_a_layer(
    entries: Seq<(Seq<char>, Doc)>,
    dbu: i32,
    rules: Map<Seq<char>, LayerView>,
    name: Seq<char>,
)
    requires
        rules_in(entries, dbu) == Ok::<Map<Seq<char>, LayerView>, Seq<char>>(rules),
    ensures
        rules.dom().contains(name) <==> exists|i: int|
            0 <= i < entries.len() && #[trigger] applies(entries, i, name),
        rules.dom().contains(name) ==> exists|i: int|
            #[trigger] rules_from(entries, i, dbu, name, rules[name]),
    decreases entries.len(),
{
    if entries.len() > 0 {
        let rest = entries.drop_last();
        let last = entries.len() - 1;
        let before = rules_in(rest, dbu)->Ok_0;
        let cfg = layer_rules(entries.last().0, entries.last().1, dbu)->Ok_0;
        let names = targets_of(entries.last().0, entries.last().1);
        law_rules_of_a_layer(rest, dbu, before, name);
        lemma_with_names(before, names, cfg, name);
        assert(forall|i: int| 0 <= i < last ==> rest[i] == entries[i]);
        assert(applies(entries, last, name) <==> names.contains(name));
        assert(forall|i: int|
            0 <= i < last ==> (applies(rest, i, name) <==> #[trigger] applies(entries, i, name)));
        if names.contains(name) {
            assert(rules_from(entries, last, dbu, name, rules[name]));
        } else if before.dom().contains(name) {
            let i = choose|i: int| #[trigger] rules_from(rest, i, dbu, name, before[name]);
            assert(applies(entries, i, name));
            assert forall|j: int| i < j < entries.len() implies !#[trigger] applies(
                entries,
                j,
                name,
            ) by {
                if j < last {
                    assert(!applies(rest, j, name));
                }
            }
            assert(rules_from(entries, i, dbu, name, rules[name]));
        } else {
            assert forall|i: int| 0 <= i < entries.len() implies !#[trigger] applies(
                entries,
                i,
                name,
            ) by {
                if i < last {
                    assert(!applies(rest, i, name));
                }
            }
        }
    }
}

/// Whether a layer's OPC rules are only those that it states, and its non-OPC rules state no
/// line-end spacing.
pub open spec fn opc_only_where_stated(layer: Doc, cfg: LayerView) -> bool {
    &&& cfg.has_opc <==> field(layer, "opc"@) is Some
    &&& !cfg.has_opc ==> cfg.opc == no_shapes() && cfg.opc_halo == 0
    &&& cfg.non_opc.space_line_end == 0
}

/// OPC rules are read only where they are stated, and non-OPC fill never has a line-end spacing.
pub proof fn law_opc_only_where_stated(key: Seq<char>, layer: Doc, dbu: i32, cfg: LayerView)
    requires
        layer_rules(key, layer, dbu) == Ok::<LayerView, Seq<char>>(cfg),
    ensures
        opc_only_where_stated(layer, cfg),
{
}

/// A rules file states rules for finitely many layers.
pub proof fn lemma_rules_finite(entries: Seq<(Seq<char>, Doc)>, dbu: i32)
    ensures
        rules_in(entries, dbu) matches Ok(rules) ==> rules.dom().finite(),
    decreases entries.len(),
{
    if entries.len() > 0 {
        lemma_rules_finite(entries.drop_last(), dbu);
        if rules_in(entries, dbu) is Ok {
            lemma_with_names_finite(
                rules_in(entries.drop_last(), dbu)->Ok_0,
                targets_of(entries.last().0, entries.last().1),
                layer_rules(entries.last().0, entries.last().1, dbu)->Ok_0,
            );
        }
    }
}

/// Rules under more names are still finitely many.
proof fn lemma_with_names_finite(
    rules: Map<Seq<char>, LayerView>,
    names: Seq<Seq<char>>,
    cfg: LayerView,
)
    requires
        rules.dom().finite(),
    ensures
        with_names(rules, names, cfg).dom().finite(),
    decreases names.len(),
{
    if names.len() > 0 {
        lemma_with_names_finite(rules, names.drop_last(), cfg);
    }
}

/// Whether the first entry of an object with this key stands at position `i`.
pub open spec fn first_entry(doc: Doc, key: Seq<char>, i: int) -> bool {
    &&& doc matches Doc::Object(entries) && 0 <= i < entries.len() && entries[i].0 == key
    &&& forall|j: int| 0 <= j < i ==> (#[trigger] doc->Object_0[j]).0 != key
}

/// What is read under a key is the value of the first entry of the object that has it; nothing where
/// there is none, or the document is no object.
pub proof fn law_field(doc: Doc, key: Seq<char>, i: int)
    ensures
        first_entry(doc, key, i) ==> field(doc, key) == Some(doc->Object_0[i].1),
        field(doc, key) is Some ==> exists|j: int| first_entry(doc, key, j),
{
    if doc is Object {
        lemma_field(doc->Object_0, key, i);
        if field(doc, key) is Some {
            let e = doc->Object_0;
            let j = choose|j: int|
                0 <= j < e.len() && (#[trigger] e[j]).0 == key && forall|k: int|
                    0 <= k < j ==> (#[trigger] e[k]).0 != key;
            assert(first_entry(doc, key, j));
        }
    }
}

/// The same of the entries.
proof fn lemma_field(entries: Seq<(Seq<char>, Doc)>, key: Seq<char>, i: int)
    ensures
        0 <= i < entries.len() && entries[i].0 == key && (forall|j: int|
            0 <= j < i ==> (#[trigger] entries[j]).0 != key) ==> entry_of(entries, key) == Some(
            entries[i].1,
        ),
        entry_of(entries, key) is Some ==> exists|j: int|
            0 <= j < entries.len() && (#[trigger] entries[j]).0 == key && forall|k: int|
                0 <= k < j ==> (#[trigger] entries[k]).0 != key,
    decreases entries.len(),
{
    if entries.len() > 0 && entries[0].0 != key {
        let rest = entries.skip(1);
        lemma_field(rest, key, i - 1);
        assert(forall|j: int| 0 <= j < rest.len() ==> rest[j] == entries[j + 1]);
        if 0 <= i < entries.len() && entries[i].0 == key && (forall|j: int|
            0 <= j < i ==> (#[trigger] entries[j]).0 != key) {
            assert(rest[i - 1] == entries[i]);
            assert forall|j: int| 0 <= j < i - 1 implies (#[trigger] rest[j]).0 != key by {
                assert(entries[j + 1].0 != key);
            }
        }
        if entry_of(rest, key) is Some {
            let j = choose|j: int|
                0 <= j < rest.len() && (#[trigger] rest[j]).0 == key && forall|k: int|
                    0 <= k < j ==> (#[trigger] rest[k]).0 != key;
            assert(entries[j + 1].0 == key);
            assert forall|k: int| 0 <= k < j + 1 implies (#[trigger] entries[k]).0 != key by {
                if k > 0 {
                    assert(rest[k - 1] == entries[k]);
                }
            }
        }
    } else if entries.len() > 0 {
        assert(entries[0].0 == key);
        if 0 <= i < entries.len() && entries[i].0 == key && (forall|j: int|
            0 <= j < i ==> (#[trigger] entries[j]).0 != key) {
            assert(i == 0);
        }
    }
}

/// Whether the value is a number, and `units` are its database units.
pub open spec fn units_of(value: Option<Doc>, dbu: i32, units: i32) -> bool {
    value matches Some(Doc::Number(Some(n))) && units == dbu_of(n, dbu)
}

/// Whether the value is a list of numbers.
pub open spec fn is_number_list(value: Option<Doc>) -> bool {
    value matches Some(Doc::List(items)) && forall|i: int|
        0 <= i < items.len() ==> (#[trigger] items[i]) matches Doc::Number(Some(_))
}

/// Whether these are the shapes and spacings of a section: shape by shape the width and the height at
/// the same place of its two lists, as many as the shorter has, and its own spacings, all in database
/// units; a line-end spacing only where `line_end` asks for one and the section has it.
pub open spec fn read_from(section: Doc, dbu: i32, line_end: bool, cfg: ShapeView) -> bool {
    let width = field(section, "width"@);
    let height = field(section, "height"@);
    &&& is_number_list(width)
    &&& is_number_list(height)
    &&& cfg.shapes.len() <= width->0->List_0.len()
    &&& cfg.shapes.len() <= height->0->List_0.len()
    &&& cfg.shapes.len() == width->0->List_0.len() || cfg.shapes.len() == height->0->List_0.len()
    &&& forall|i: int|
        0 <= i < cfg.shapes.len() ==> units_of(
            Some(width->0->List_0[i]),
            dbu,
            (#[trigger] cfg.shapes[i]).0,
        ) && units_of(Some(height->0->List_0[i]), dbu, cfg.shapes[i].1)
    &&& units_of(field(section, "space_to_fill"@), dbu, cfg.space_to_fill)
    &&& units_of(field(section, "space_to_non_fill"@), dbu, cfg.space_to_non_fill)
    &&& if line_end && field(section, "space_line_end"@) matches Some(Doc::Number(Some(_))) {
        units_of(field(section, "space_line_end"@), dbu, cfg.space_line_end)
    } else {
        cfg.space_line_end == 0
    }
}

/// Whether a section states all that it must: two lists of numbers and two spacings.
pub open spec fn is_complete(section: Doc) -> bool {
    &&& is_number_list(field(section, "width"@))
    &&& is_number_list(field(section, "height"@))
    &&& field(section, "space_to_fill"@) matches Some(Doc::Number(Some(_)))
    &&& field(section, "space_to_non_fill"@) matches Some(Doc::Number(Some(_)))
}

/// A section is read where it is complete, and what is read is what it states.
proof fn lemma_section(section: Doc, dbu: i32, line_end: bool)
    ensures
        shape_rules(section, dbu, line_end) is Ok <==> is_complete(section),
        shape_rules(section, dbu, line_end) matches Ok(cfg) ==> read_from(section, dbu, line_end, cfg),
{
    lemma_number_list(section, "width"@);
    lemma_number_list(section, "height"@);
}

/// A list of numbers is read number by number.
proof fn lemma_number_list(doc: Doc, key: Seq<char>)
    ensures
        numbers_in(doc, key) is Ok <==> is_number_list(field(doc, key)),
        numbers_in(doc, key) matches Ok(numbers) ==> {
            let items = field(doc, key)->0->List_0;
            &&& numbers.len() == items.len()
            &&& forall|i: int|
                0 <= i < items.len() ==> items[i] == Doc::Number(Some(#[trigger] numbers[i]))
        },
{
    if let Some(Doc::List(items)) = field(doc, key) {
        if is_number_list(field(doc, key)) {
            assert forall|i: int| 0 <= i < items.len() implies (#[trigger] items[i]) is Number
                && items[i]->Number_0 is Some by {}
        }
        if numbers_in(doc, key) is Ok {
            assert forall|i: int| 0 <= i < items.len() implies (#[trigger] items[i]) matches Doc::Number(
                Some(_),
            ) by {
                assert(items[i] is Number && items[i]->Number_0 is Some);
            }
            let numbers = numbers_in(doc, key)->Ok_0;
            assert forall|i: int| 0 <= i < items.len() implies items[i] == Doc::Number(
                Some(#[trigger] numbers[i]),
            ) by {
                assert(items[i] is Number && items[i]->Number_0 is Some);
            }
        }
    }
}

/// The rules of a layer are read section by section: the OPC shapes and spacings are those of the
/// layer's own OPC section, the others those of its non-OPC section, each in database units; the
/// masks are the datatypes that the non-OPC section lists; and the halo is the OPC section's.
pub proof fn law_each_section_states_its_own(key: Seq<char>, layer: Doc, dbu: i32, cfg: LayerView)
    requires
        layer_rules(key, layer, dbu) == Ok::<LayerView, Seq<char>>(cfg),
    ensures
        ({
            let non_opc = field(layer, "non-opc"@);
            let opc = field(layer, "opc"@);
            &&& non_opc is Some
            &&& read_from(non_opc->0, dbu, false, cfg.non_opc)
            &&& cfg.has_opc == opc is Some
            &&& if opc is Some {
                read_from(opc->0, dbu, true, cfg.opc)
            } else {
                cfg.opc.shapes.len() == 0
            }
            &&& units_of(field(layer, "space_to_outline"@), dbu, cfg.space_to_outline)
            &&& if field(non_opc->0, "datatype"@) is Some && field(non_opc->0, "datatype"@)->0 is List {
                let masks = field(non_opc->0, "datatype"@)->0->List_0.len();
                masks <= u32::MAX ==> cfg.num_masks == masks
            } else {
                cfg.num_masks == 0
            }
            &&& if opc is Some && field(opc->0, "halo"@) matches Some(Doc::Number(Some(_))) {
                units_of(field(opc->0, "halo"@), dbu, cfg.opc_halo)
            } else {
                cfg.opc_halo == 0
            }
        }),
{
    lemma_section(field(layer, "non-opc"@)->0, dbu, false);
    if field(layer, "opc"@) is Some {
        lemma_section(field(layer, "opc"@)->0, dbu, true);
    }
}

/// No section speaks for the other: layers with the same OPC section have the same OPC rules, whatever
/// else they state, and layers with the same non-OPC section have the same other rules and masks.
pub proof fn law_sections_are_independent(
    key_a: Seq<char>,
    a: Doc,
    cfg_a: LayerView,
    key_b: Seq<char>,
    b: Doc,
    cfg_b: LayerView,
    dbu: i32,
)
    requires
        layer_rules(key_a, a, dbu) == Ok::<LayerView, Seq<char>>(cfg_a),
        layer_rules(key_b, b, dbu) == Ok::<LayerView, Seq<char>>(cfg_b),
    ensures
        field(a, "opc"@) == field(b, "opc"@) ==> cfg_a.opc == cfg_b.opc && cfg_a.has_opc
            == cfg_b.has_opc && cfg_a.opc_halo == cfg_b.opc_halo,
        field(a, "non-opc"@) == field(b, "non-opc"@) ==> cfg_a.non_opc == cfg_b.non_opc
            && cfg_a.num_masks == cfg_b.num_masks,
        field(a, "space_to_outline"@) == field(b, "space_to_outline"@) ==> cfg_a.space_to_outline
            == cfg_b.space_to_outline,
{
}

/// A layer's rules are read exactly where it states all that it must: a complete non-OPC section, a
/// spacing to the outline, and a complete OPC section or none.
pub proof fn law_complete_layer(key: Seq<char>, layer: Doc, dbu: i32)
    ensures
        layer_rules(key, layer, dbu) is Ok <==> {
            &&& field(layer, "non-opc"@) is Some
            &&& is_complete(field(layer, "non-opc"@)->0)
            &&& field(layer, "space_to_outline"@) matches Some(Doc::Number(Some(_)))
            &&& field(layer, "opc"@) is Some ==> is_complete(field(layer, "opc"@)->0)
        },
        field(layer, "non-opc"@) is None ==> layer_rules(key, layer, dbu) == Err::<
            LayerView,
            Seq<char>,
        >("layer `"@ + key + "` has no `non-opc` section"@),
{
    lemma_section(field(layer, "non-opc"@)->0, dbu, false);
    if field(layer, "opc"@) is Some {
        lemma_section(field(layer, "opc"@)->0, dbu, true);
    }
}

/// The rules are read where every entry's rules are, and otherwise the first entry in error says why.
pub proof fn law_first_entry_in_error(entries: Seq<(Seq<char>, Doc)>, dbu: i32, i: int)
    ensures
        rules_in(entries, dbu) is Ok <==> forall|k: int|
            0 <= k < entries.len() ==> layer_rules(
                (#[trigger] entries[k]).0,
                entries[k].1,
                dbu,
            ) is Ok,
        0 <= i < entries.len() && layer_rules(entries[i].0, entries[i].1, dbu) is Err && (forall|k: int|
            0 <= k < i ==> layer_rules((#[trigger] entries[k]).0, entries[k].1, dbu) is Ok) ==> (
        rules_in(entries, dbu) matches Err(e) && e == layer_rules(
            entries[i].0,
            entries[i].1,
            dbu,
        )->Err_0),
    decreases entries.len(),
{
    if entries.len() > 0 {
        let rest = entries.drop_last();
        law_first_entry_in_error(rest, dbu, i);
        assert(forall|k: int| 0 <= k < rest.len() ==> rest[k] == entries[k]);
        assert(entries[entries.len() - 1] == entries.last());
        if rules_in(entries, dbu) is Ok {
            assert forall|k: int| 0 <= k < entries.len() implies layer_rules(
                (#[trigger] entries[k]).0,
                entries[k].1,
                dbu,
            ) is Ok by {
                if k < rest.len() {
                    assert(layer_rules(rest[k].0, rest[k].1, dbu) is Ok);
                }
            }
        }
    }
}

/// An entry applies to the layers whose names its `names` list has; without such a list to the layer
/// of its `name`, or else to the layer that its key names.
pub proof fn law_targets(key: Seq<char>, layer: Doc, name: Seq<char>)
    ensures
        ({
            let names = field(layer, "names"@);
            let single = field(layer, "name"@);
            targets_of(key, layer).contains(name) <==> if names matches Some(Doc::List(_)) {
                exists|i: int|
                    0 <= i < names->0->List_0.len() && #[trigger] names->0->List_0[i] == Doc::Text(
                        name,
                    )
            } else if single matches Some(Doc::Text(_)) {
                name == single->0->Text_0
            } else {
                name == key
            }
        }),
{
    let t = targets_of(key, layer);
    match field(layer, "names"@) {
        Some(Doc::List(items)) => {
            lemma_texts_among(items, name);
        },
        _ => {
            assert(t.len() == 1 && t[0] == t[0]);
            if t[0] == name {
                assert(t.contains(name));
            }
        },
    }
}

/// The texts among the items.
proof fn lemma_texts_among(items: Seq<Doc>, name: Seq<char>)
    ensures
        texts_among(items).contains(name) <==> exists|i: int|
            0 <= i < items.len() && #[trigger] items[i] == Doc::Text(name),
    decreases items.len(),
{
    if items.len() > 0 {
        let less = items.drop_last();
        lemma_texts_among(less, name);
        let before = texts_among(less);
        let all = texts_among(items);
        if all.contains(name) {
            let k = choose|k: int| 0 <= k < all.len() && all[k] == name;
            if k < before.len() {
                assert(before[k] == name);
                assert(before.contains(name));
                let i = choose|i: int| 0 <= i < less.len() && #[trigger] less[i] == Doc::Text(name);
                assert(items[i] == Doc::Text(name));
            } else {
                assert(items[items.len() - 1] == Doc::Text(name));
            }
        }
        if exists|i: int| 0 <= i < items.len() && #[trigger] items[i] == Doc::Text(name) {
            let i = choose|i: int| 0 <= i < items.len() && #[trigger] items[i] == Doc::Text(name);
            if i < less.len() {
                assert(less[i] == Doc::Text(name));
                let k = choose|k: int| 0 <= k < before.len() && before[k] == name;
                assert(all[k] == name);
            } else {
                assert(all[before.len() as int] == name);
            }
        }
    }
}

/// What is said of a list: that there is none, that it holds something else than numbers, or nothing.
pub open spec fn list_complaint(value: Option<Doc>, key: Seq<char>) -> Option<Seq<char>> {
    if is_number_list(value) {
        None
    } else if value matches Some(Doc::List(_)) {
        Some("`"@ + key + "` holds a non-number"@)
    } else {
        Some("`"@ + key + "` is missing or not a list"@)
    }
}

/// What is said of a number that is none.
pub open spec fn number_complaint(value: Option<Doc>, key: Seq<char>) -> Option<Seq<char>> {
    if value matches Some(Doc::Number(Some(_))) {
        None
    } else {
        Some("`"@ + key + "` is missing or not a number"@)
    }
}

/// The first of two complaints.
pub open spec fn first_of(a: Option<Seq<char>>, b: Option<Seq<char>>) -> Option<Seq<char>> {
    if a is Some {
        a
    } else {
        b
    }
}

/// What is said of a section: of its widths, its heights and its two spacings, the first of them.
pub open spec fn section_complaint(section: Doc) -> Option<Seq<char>> {
    first_of(
        list_complaint(field(section, "width"@), "width"@),
        first_of(
            list_complaint(field(section, "height"@), "height"@),
            first_of(
                number_complaint(field(section, "space_to_fill"@), "space_to_fill"@),
                number_complaint(field(section, "space_to_non_fill"@), "space_to_non_fill"@),
            ),
        ),
    )
}

/// A layer's rules that cannot be read are answered with the first thing that is wrong with them: that
/// there is no non-OPC section, by the key of the layer; then what is wrong with the spacing to the
/// outline, with the OPC section where there is one, and with the non-OPC section.
pub proof fn law_complaints(key: Seq<char>, layer: Doc, dbu: i32)
    ensures
        ({
            let non_opc = field(layer, "non-opc"@);
            let opc = field(layer, "opc"@);
            let complaint = if non_opc is None {
                Some("layer `"@ + key + "` has no `non-opc` section"@)
            } else {
                first_of(
                    number_complaint(field(layer, "space_to_outline"@), "space_to_outline"@),
                    first_of(
                        if opc is Some {
                            section_complaint(opc->0)
                        } else {
                            None
                        },
                        section_complaint(non_opc->0),
                    ),
                )
            };
            match layer_rules(key, layer, dbu) {
                Ok(_) => complaint is None,
                Err(e) => complaint == Some(e),
            }
        }),
{
    lemma_complaint(field(layer, "non-opc"@)->0, dbu, false);
    if field(layer, "opc"@) is Some {
        lemma_complaint(field(layer, "opc"@)->0, dbu, true);
    }
}

/// A section that cannot be read is answered with what is wrong with it.
proof fn lemma_complaint(section: Doc, dbu: i32, line_end: bool)
    ensures
        match shape_rules(section, dbu, line_end) {
            Ok(_) => section_complaint(section) is None,
            Err(e) => section_complaint(section) == Some(e),
        },
{
    lemma_number_list(section, "width"@);
    lemma_number_list(section, "height"@);
}

/// The rules of a text are those of the entries under `layers`, at the scale given; a text that is no
/// document, and a document without such an object, are answered with why.
pub proof fn law_rules_of_a_text(text: Seq<char>, dbu: i32)
    ensures
        match parsed_json(text) {
            Ok(doc) => if field(doc, "layers"@) matches Some(Doc::Object(_)) {
                rules_text(text, dbu) == rules_in(field(doc, "layers"@)->0->Object_0, dbu)
            } else {
                rules_text(text, dbu) matches Err(e) && e == "rules file has no `layers` object"@
            },
            Err(why) => rules_text(text, dbu) matches Err(e) && e == "rules file is not valid JSON: "@
                + why,
        },
{
}

/// A document holds what its parts hold, each in its place.
pub proof fn law_document(json: Json)
    ensures
        match json {
            Json::Null => json@ == Doc::Null,
            Json::Bool(b) => json@ == Doc::Bool(b),
            Json::Number(n) => json@ == Doc::Number(n),
            Json::Text(t) => json@ == Doc::Text(t@),
            Json::List(items) => json@ matches Doc::List(docs) && docs.len() == items@.len() && forall|
                i: int,
            |
                0 <= i < docs.len() ==> (#[trigger] docs[i]) == items@[i]@,
            Json::Object(entries) => json@ matches Doc::Object(docs) && docs.len() == entries@.len()
                && forall|i: int|
                0 <= i < docs.len() ==> (#[trigger] docs[i]) == (entries@[i].0@, entries@[i].1@),
        },
{
}

/// What the rules of a layer hold is what their fields say.
pub proof fn law_rules_hold_their_fields(cfg: LayerCfg)
    ensures
        cfg@.space_to_outline == cfg.space_to_outline,
        cfg@.num_masks == cfg.num_masks,
        cfg@.has_opc == cfg.has_opc,
        cfg@.opc_halo == cfg.opc_halo,
        cfg@.opc.shapes == cfg.opc.shapes@,
        cfg@.opc.space_to_fill == cfg.opc.space_to_fill,
        cfg@.opc.space_to_non_fill == cfg.opc.space_to_non_fill,
        cfg@.opc.space_line_end == cfg.opc.space_line_end,
        cfg@.non_opc.shapes == cfg.non_opc.shapes@,
        cfg@.non_opc.space_to_fill == cfg.non_opc.space_to_fill,
        cfg@.non_opc.space_to_non_fill == cfg.non_opc.space_to_non_fill,
        cfg@.non_opc.space_line_end == cfg.non_opc.space_line_end,
{
}

} // verus!
