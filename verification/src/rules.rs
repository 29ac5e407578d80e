//! The fill rules, read from a JSON text.

use vstd::prelude::*;

use crate::config::{no_shapes, LayerCfg, LayerView, ShapeCfg, ShapeView};
use crate::dbu::{dbu_of, to_dbu};
use crate::json::{parse_json, parsed_json, Doc, Json};
use crate::names::NameMap;
use crate::text::{joined, same, texts};

verus! {

/// Fill rules, keyed by the layer name they apply to.
#[derive(Debug, PartialEq, Eq)]
pub struct Rules {
    pub layers: NameMap<LayerCfg>,
}

impl View for Rules {
    type V = Map<Seq<char>, LayerView>;

    open spec fn view(&self) -> Map<Seq<char>, LayerView> {
        self.layers@.map_values(|c: LayerCfg| c@)
    }
}

impl Default for Rules {
    fn default() -> (r: Rules)
        ensures
            r@ == Map::<Seq<char>, LayerView>::empty(),
    {
        let r = Rules { layers: NameMap::new() };
        assert(r@ =~= Map::<Seq<char>, LayerView>::empty());
        r
    }
}

impl Clone for Rules {
    fn clone(&self) -> (r: Rules)
        ensures
            r@ == self@,
    {
        let r = Rules { layers: self.layers.clone() };
        assert forall|name: Seq<char>| #[trigger] r@.contains_key(name) implies r@[name]
            == self@[name] by {
            assert(r.layers@.contains_key(name));
        }
        assert(r@ =~= self@);
        r
    }
}

/// The value of the first entry with this key.
pub open spec fn entry_of(entries: Seq<(Seq<char>, Doc)>, key: Seq<char>) -> Option<Doc>
    decreases entries.len(),
{
    if entries.len() == 0 {
        None
    } else if entries[0].0 == key {
        Some(entries[0].1)
    } else {
        entry_of(entries.skip(1), key)
    }
}

/// The value under `key`, where the document is an object that has it.
pub open spec fn field(doc: Doc, key: Seq<char>) -> Option<Doc> {
    match doc {
        Doc::Object(entries) => entry_of(entries, key),
        _ => None,
    }
}

fn find<'a>(json: &'a Json, key: &str) -> (r: Option<&'a Json>)
    ensures
        match r {
            Some(v) => field(json@, key@) == Some(v@),
            None => field(json@, key@) is None,
        },
{
    match json {
        Json::Object(entries) => {
            let ghost docs = json@->Object_0;
            let mut i: usize = 0;
            assert(docs.skip(0) =~= docs);
            while i < entries.len()
                invariant
                    i <= entries@.len(),
                    docs.len() == entries@.len(),
                    forall|k: int|
                        0 <= k < docs.len() ==> docs[k] == (
                            (#[trigger] entries@[k]).0@,
                            entries@[k].1@,
                        ),
                    json@ == Doc::Object(docs),
                    entry_of(docs, key@) == entry_of(docs.skip(i as int), key@),
                decreases entries.len() - i,
            {
                assert(docs.skip(i as int).skip(1) =~= docs.skip(i + 1));
                assert(docs.skip(i as int)[0] == docs[i as int]);
                if same(entries[i].0.as_str(), key) {
                    return Some(&entries[i].1);
                }
                i = i + 1;
            }
            None
        },
        _ => None,
    }
}

/// The number under `key`.
pub open spec fn number_in(doc: Doc, key: Seq<char>) -> Option<u64> {
    match field(doc, key) {
        Some(Doc::Number(n)) => n,
        _ => None,
    }
}

/// What is said of a number that is not there.
pub open spec fn no_number(key: Seq<char>) -> Seq<char> {
    "`"@ + key + "` is missing or not a number"@
}

fn number(json: &Json, key: &str) -> (r: Result<u64, String>)
    ensures
        match r {
            Ok(n) => number_in(json@, key@) == Some(n),
            Err(e) => number_in(json@, key@) is None && e@ == no_number(key@),
        },
{
    match find(json, key) {
        Some(Json::Number(Some(n))) => Ok(*n),
        _ => Err(joined("`", key, "` is missing or not a number")),
    }
}

/// The numbers of the list under `key`; an error where there is no list, or it holds anything else.
pub open spec fn numbers_in(doc: Doc, key: Seq<char>) -> Result<Seq<u64>, Seq<char>> {
    match field(doc, key) {
        Some(Doc::List(items)) => if forall|i: int|
            0 <= i < items.len() ==> (#[trigger] items[i]) is Number && items[i]->Number_0 is Some {
            Ok(Seq::new(items.len(), |i: int| items[i]->Number_0->0))
        } else {
            Err("`"@ + key + "` holds a non-number"@)
        },
        _ => Err("`"@ + key + "` is missing or not a list"@),
    }
}

fn numbers(json: &Json, key: &str) -> (r: Result<Vec<u64>, String>)
    ensures
        match r {
            Ok(v) => numbers_in(json@, key@) == Ok::<Seq<u64>, Seq<char>>(v@),
            Err(e) => numbers_in(json@, key@) == Err::<Seq<u64>, Seq<char>>(e@),
        },
{
    match find(json, key) {
        Some(list) => match list {
            Json::List(items) => {
                let ghost docs = list@->List_0;
                let mut out: Vec<u64> = Vec::new();
                let mut i: usize = 0;
                while i < items.len()
                    invariant
                        i <= items@.len(),
                        docs.len() == items@.len(),
                        field(json@, key@) == Some(Doc::List(docs)),
                        forall|k: int| 0 <= k < docs.len() ==> docs[k] == (#[trigger] items@[k])@,
                        out@.len() == i,
                        forall|k: int|
                            0 <= k < i ==> docs[k] == Doc::Number(Some(#[trigger] out@[k])),
                    decreases items.len() - i,
                {
                    assert(docs[i as int] == items@[i as int]@);
                    let n: u64 = match &items[i] {
                        Json::Number(Some(n)) => *n,
                        _ => {
                            assert(!(docs[i as int] is Number && docs[i as int]->Number_0 is Some));
                            return Err(joined("`", key, "` holds a non-number"));
                        },
                    };
                    assert(docs[i as int] == Doc::Number(Some(n)));
                    out.push(n);
                    i = i + 1;
                }
                proof {
                    assert forall|k: int| 0 <= k < docs.len() implies (#[trigger] docs[k]) is Number
                        && docs[k]->Number_0 is Some by {
                        assert(docs[k]->Number_0 == Some(out@[k]));
                    }
                    let want = Seq::new(docs.len(), |k: int| docs[k]->Number_0->0);
                    assert forall|k: int| 0 <= k < docs.len() implies want[k] == #[trigger] out@[k] by {}
                    assert(out@ =~= want);
                }
                Ok(out)
            },
            _ => Err(joined("`", key, "` is missing or not a list")),
        },
        None => Err(joined("`", key, "` is missing or not a list")),
    }
}

/// The widths and heights, pair by pair as far as both lists go.
pub open spec fn pairs(w: Seq<u64>, h: Seq<u64>, dbu: i32) -> Seq<(i32, i32)> {
    Seq::new(
        if w.len() < h.len() {
            w.len()
        } else {
            h.len()
        },
        |i: int| (dbu_of(w[i], dbu), dbu_of(h[i], dbu)),
    )
}

/// The shapes that a section states.
pub open spec fn shapes_in(doc: Doc, dbu: i32) -> Result<Seq<(i32, i32)>, Seq<char>> {
    match numbers_in(doc, "width"@) {
        Err(e) => Err(e),
        Ok(w) => match numbers_in(doc, "height"@) {
            Err(e) => Err(e),
            Ok(h) => Ok(pairs(w, h, dbu)),
        },
    }
}

/// The shapes that a section states. A mismatched pair of lists is the shorter of the two.
fn shapes_of(json: &Json, dbu: i32) -> (r: Result<Vec<(i32, i32)>, String>)
    ensures
        match r {
            Ok(v) => shapes_in(json@, dbu) == Ok::<Seq<(i32, i32)>, Seq<char>>(v@),
            Err(e) => shapes_in(json@, dbu) == Err::<Seq<(i32, i32)>, Seq<char>>(e@),
        },
{
    let w = match numbers(json, "width") {
        Ok(v) => v,
        Err(e) => {
            return Err(e);
        },
    };
    let h = match numbers(json, "height") {
        Ok(v) => v,
        Err(e) => {
            return Err(e);
        },
    };
    let mut out: Vec<(i32, i32)> = Vec::new();
    let mut i: usize = 0;
    while i < w.len() && i < h.len()
        invariant
            i <= w@.len(),
            i <= h@.len(),
            out@.len() == i,
            forall|k: int|
                0 <= k < i ==> #[trigger] out@[k] == (dbu_of(w@[k], dbu), dbu_of(h@[k], dbu)),
        decreases w.len() - i,
    {
        out.push((to_dbu(w[i], dbu), to_dbu(h[i], dbu)));
        i = i + 1;
    }
    assert(out@ =~= pairs(w@, h@, dbu));
    Ok(out)
}

/// One section's shapes and spacings. Only OPC fill states a line-end spacing, and even there it is
/// optional.
pub open spec fn shape_rules(doc: Doc, dbu: i32, line_end: bool) -> Result<ShapeView, Seq<char>> {
    match shapes_in(doc, dbu) {
        Err(e) => Err(e),
        Ok(shapes) => match number_in(doc, "space_to_fill"@) {
            None => Err(no_number("space_to_fill"@)),
            Some(fill) => match number_in(doc, "space_to_non_fill"@) {
                None => Err(no_number("space_to_non_fill"@)),
                Some(non_fill) => Ok(
                    ShapeView {
                        shapes,
                        space_to_fill: dbu_of(fill, dbu),
                        space_to_non_fill: dbu_of(non_fill, dbu),
                        space_line_end: match number_in(doc, "space_line_end"@) {
                            Some(n) if line_end => dbu_of(n, dbu),
                            _ => 0,
                        },
                    },
                ),
            },
        },
    }
}

fn shape_cfg(json: &Json, dbu: i32, line_end: bool) -> (r: Result<ShapeCfg, String>)
    ensures
        match r {
            Ok(c) => shape_rules(json@, dbu, line_end) == Ok::<ShapeView, Seq<char>>(c@),
            Err(e) => shape_rules(json@, dbu, line_end) == Err::<ShapeView, Seq<char>>(e@),
        },
{
    let shapes = match shapes_of(json, dbu) {
        Ok(v) => v,
        Err(e) => {
            return Err(e);
        },
    };
    let fill = match number(json, "space_to_fill") {
        Ok(n) => n,
        Err(e) => {
            return Err(e);
        },
    };
    let non_fill = match number(json, "space_to_non_fill") {
        Ok(n) => n,
        Err(e) => {
            return Err(e);
        },
    };
    let end = if line_end {
        match number(json, "space_line_end") {
            Ok(n) => to_dbu(n, dbu),
            Err(_) => 0,
        }
    } else {
        0
    };
    Ok(
        ShapeCfg {
            shapes,
            space_to_fill: to_dbu(fill, dbu),
            space_to_non_fill: to_dbu(non_fill, dbu),
            space_line_end: end,
        },
    )
}

/// The texts among the items of a list.
pub open spec fn texts_among(items: Seq<Doc>) -> Seq<Seq<char>>
    decreases items.len(),
{
    if items.len() == 0 {
        Seq::empty()
    } else {
        match items.last() {
            Doc::Text(t) => texts_among(items.drop_last()).push(t),
            _ => texts_among(items.drop_last()),
        }
    }
}

/// The layers that one entry of the rules file applies to: those of its `names` list; otherwise its
/// `name`, falling back to its key.
pub open spec fn targets_of(key: Seq<char>, layer: Doc) -> Seq<Seq<char>> {
    match field(layer, "names"@) {
        Some(Doc::List(items)) => texts_among(items),
        _ => match field(layer, "name"@) {
            Some(Doc::Text(name)) => seq![name],
            _ => seq![key],
        },
    }
}

fn text_items(list: &Json) -> (r: Vec<String>)
    requires
        list@ is List,
    ensures
        texts(r@) == texts_among(list@->List_0),
{
    let mut out: Vec<String> = Vec::new();
    match list {
        Json::List(items) => {
            let ghost docs = list@->List_0;
            let mut i: usize = 0;
            assert(docs.take(0) =~= Seq::empty());
            assert(texts(out@) =~= Seq::empty());
            while i < items.len()
                invariant
                    i <= items@.len(),
                    docs.len() == items@.len(),
                    forall|k: int| 0 <= k < docs.len() ==> docs[k] == (#[trigger] items@[k])@,
                    texts(out@) == texts_among(docs.take(i as int)),
                decreases items.len() - i,
            {
                let ghost before = out@;
                assert(docs.take(i + 1).drop_last() =~= docs.take(i as int));
                assert(docs.take(i + 1).last() == items@[i as int]@);
                match &items[i] {
                    Json::Text(t) => {
                        out.push(t.clone());
                        assert(texts(out@) =~= texts(before).push(t@));
                    },
                    _ => {},
                }
                i = i + 1;
            }
            assert(docs.take(i as int) =~= docs);
        },
        _ => {},
    }
    out
}

fn targets(key: &String, layer: &Json) -> (r: Vec<String>)
    ensures
        texts(r@) == targets_of(key@, layer@),
{
    match find(layer, "names") {
        Some(list) => match list {
            Json::List(_) => {
                return text_items(list);
            },
            _ => {},
        },
        None => {},
    }
    let name: String = match find(layer, "name") {
        Some(Json::Text(t)) => t.clone(),
        _ => key.clone(),
    };
    let mut r: Vec<String> = Vec::new();
    r.push(name);
    assert(texts(r@) =~= seq![name@]);
    r
}

/// The masks that a non-OPC section names: one for each datatype of a list, none where there is no
/// list.
pub open spec fn masks_in(non_opc: Doc) -> u32 {
    match field(non_opc, "datatype"@) {
        Some(Doc::List(items)) => items.len() as u32,
        _ => 0,
    }
}

/// The OPC rules of a layer, where it states any.
pub open spec fn opc_rules(layer: Doc, dbu: i32) -> Result<ShapeView, Seq<char>> {
    match field(layer, "opc"@) {
        Some(opc) => shape_rules(opc, dbu, true),
        None => Ok(no_shapes()),
    }
}

/// The OPC halo of a layer: zero where it states none.
pub open spec fn halo_in(layer: Doc, dbu: i32) -> i32 {
    match field(layer, "opc"@) {
        Some(opc) => match number_in(opc, "halo"@) {
            Some(n) => dbu_of(n, dbu),
            None => 0,
        },
        None => 0,
    }
}

/// The rules of one entry of the rules file; an error where it lacks something, the first one in
/// the order: the non-OPC section, the spacing to the outline, the OPC rules, the non-OPC rules.
pub open spec fn layer_rules(key: Seq<char>, layer: Doc, dbu: i32) -> Result<
    LayerView,
    Seq<char>,
> {
    match field(layer, "non-opc"@) {
        None => Err("layer `"@ + key + "` has no `non-opc` section"@),
        Some(non_opc) => match number_in(layer, "space_to_outline"@) {
            None => Err(no_number("space_to_outline"@)),
            Some(outline) => match opc_rules(layer, dbu) {
                Err(e) => Err(e),
                Ok(opc) => match shape_rules(non_opc, dbu, false) {
                    Err(e) => Err(e),
                    Ok(rest) => Ok(
                        LayerView {
                            space_to_outline: dbu_of(outline, dbu),
                            num_masks: masks_in(non_opc),
                            has_opc: field(layer, "opc"@) is Some,
                            opc_halo: halo_in(layer, dbu),
                            opc,
                            non_opc: rest,
                        },
                    ),
                },
            },
        },
    }
}

fn layer_cfg(key: &String, layer: &Json, dbu: i32) -> (r: Result<LayerCfg, String>)
    ensures
        match r {
            Ok(c) => layer_rules(key@, layer@, dbu) == Ok::<LayerView, Seq<char>>(c@),
            Err(e) => layer_rules(key@, layer@, dbu) == Err::<LayerView, Seq<char>>(e@),
        },
{
    let non_opc = match find(layer, "non-opc") {
        Some(v) => v,
        None => {
            return Err(joined("layer `", key.as_str(), "` has no `non-opc` section"));
        },
    };
    let outline = match number(layer, "space_to_outline") {
        Ok(n) => n,
        Err(e) => {
            return Err(e);
        },
    };
    let num_masks: u32 = match find(non_opc, "datatype") {
        Some(Json::List(items)) => items.len() as u32,
        _ => 0,
    };
    let (has_opc, opc_halo, opc): (bool, i32, ShapeCfg) = match find(layer, "opc") {
        Some(o) => {
            let halo: i32 = match number(o, "halo") {
                Ok(n) => to_dbu(n, dbu),
                Err(_) => 0,
            };
            match shape_cfg(o, dbu, true) {
                Ok(c) => (true, halo, c),
                Err(e) => {
                    return Err(e);
                },
            }
        },
        None => (false, 0, ShapeCfg::default()),
    };
    let rest = match shape_cfg(non_opc, dbu, false) {
        Ok(c) => c,
        Err(e) => {
            return Err(e);
        },
    };
    Ok(
        LayerCfg {
            space_to_outline: to_dbu(outline, dbu),
            num_masks,
            has_opc,
            opc_halo,
            opc,
            non_opc: rest,
        },
    )
}

/// The rules with `cfg` under each of the names.
pub open spec fn with_names(
    rules: Map<Seq<char>, LayerView>,
    names: Seq<Seq<char>>,
    cfg: LayerView,
) -> Map<Seq<char>, LayerView>
    decreases names.len(),
{
    if names.len() == 0 {
        rules
    } else {
        with_names(rules, names.drop_last(), cfg).insert(names.last(), cfg)
    }
}

/// The rules that the entries state, a later entry replacing an earlier one under the same name;
/// the first entry in error is the answer.
pub open spec fn rules_in(entries: Seq<(Seq<char>, Doc)>, dbu: i32) -> Result<
    Map<Seq<char>, LayerView>,
    Seq<char>,
>
    decreases entries.len(),
{
    if entries.len() == 0 {
        Ok(Map::empty())
    } else {
        match rules_in(entries.drop_last(), dbu) {
            Err(e) => Err(e),
            Ok(rules) => match layer_rules(entries.last().0, entries.last().1, dbu) {
                Err(e) => Err(e),
                Ok(cfg) => Ok(
                    with_names(rules, targets_of(entries.last().0, entries.last().1), cfg),
                ),
            },
        }
    }
}

/// The rules that a document states.
pub open spec fn stated_rules(doc: Doc, dbu: i32) -> Result<Map<Seq<char>, LayerView>, Seq<char>> {
    match field(doc, "layers"@) {
        Some(Doc::Object(entries)) => rules_in(entries, dbu),
        _ => Err("rules file has no `layers` object"@),
    }
}

/// The rules that a text states.
pub open spec fn rules_text(text: Seq<char>, dbu: i32) -> Result<
    Map<Seq<char>, LayerView>,
    Seq<char>,
> {
    match parsed_json(text) {
        Err(e) => Err("rules file is not valid JSON: "@ + e),
        Ok(doc) => stated_rules(doc, dbu),
    }
}

fn put_names(rules: &mut Rules, names: &Vec<String>, cfg: &LayerCfg)
    ensures
        final(rules)@ == with_names(old(rules)@, texts(names@), cfg@),
{
    let mut i: usize = 0;
    let ghost start = rules@;
    assert(texts(names@).take(0) =~= Seq::empty());
    while i < names.len()
        invariant
            i <= names@.len(),
            rules@ == with_names(start, texts(names@).take(i as int), cfg@),
        decreases names.len() - i,
    {
        let ghost now = rules@;
        rules.layers.insert(names[i].clone(), cfg.clone());
        assert(rules@ =~= now.insert(names@[i as int]@, cfg@));
        assert(texts(names@).take(i + 1).drop_last() =~= texts(names@).take(i as int));
        i = i + 1;
    }
    assert(texts(names@).take(i as int) =~= texts(names@));
}

/// The rules that a document states.
pub fn rules_of(json: &Json, dbu: i32) -> (r: Result<Rules, String>)
    ensures
        match r {
            Ok(rules) => stated_rules(json@, dbu) == Ok::<Map<Seq<char>, LayerView>, Seq<char>>(
                rules@,
            ),
            Err(e) => stated_rules(json@, dbu) == Err::<Map<Seq<char>, LayerView>, Seq<char>>(e@),
        },
{
    let layers = match find(json, "layers") {
        Some(v) => v,
        None => {
            return Err("rules file has no `layers` object".to_owned());
        },
    };
    match layers {
        Json::Object(entries) => {
            let ghost docs = layers@->Object_0;
            let mut rules = Rules::default();
            let mut i: usize = 0;
            assert(docs.take(0) =~= Seq::empty());
            while i < entries.len()
                invariant
                    i <= entries@.len(),
                    docs.len() == entries@.len(),
                    stated_rules(json@, dbu) == rules_in(docs, dbu),
                    forall|k: int|
                        0 <= k < docs.len() ==> docs[k] == (
                            (#[trigger] entries@[k]).0@,
                            entries@[k].1@,
                        ),
                    rules_in(docs.take(i as int), dbu) == Ok::<
                        Map<Seq<char>, LayerView>,
                        Seq<char>,
                    >(rules@),
                decreases entries.len() - i,
            {
                let ghost now = docs.take(i + 1);
                assert(now.drop_last() =~= docs.take(i as int));
                assert(now.last() == (entries@[i as int].0@, entries@[i as int].1@));
                match layer_cfg(&entries[i].0, &entries[i].1, dbu) {
                    Ok(cfg) => {
                        let names = targets(&entries[i].0, &entries[i].1);
                        put_names(&mut rules, &names, &cfg);
                    },
                    Err(e) => {
                        proof {
                            lemma_first_error(docs, dbu, i + 1);
                        }
                        return Err(e);
                    },
                }
                i = i + 1;
            }
            assert(docs.take(i as int) =~= docs);
            Ok(rules)
        },
        _ => Err("rules file has no `layers` object".to_owned()),
    }
}

/// An error among the first entries is the answer for all of them.
proof fn lemma_first_error(entries: Seq<(Seq<char>, Doc)>, dbu: i32, n: int)
    requires
        0 <= n <= entries.len(),
        rules_in(entries.take(n), dbu) is Err,
    ensures
        rules_in(entries, dbu) == rules_in(entries.take(n), dbu),
    decreases entries.len() - n,
{
    if n < entries.len() {
        assert(entries.take(n + 1).drop_last() =~= entries.take(n));
        lemma_first_error(entries, dbu, n + 1);
    } else {
        assert(entries.take(n) =~= entries);
    }
}

/// Parses the rules file.
///
/// A `names` list applies one layer's rules to several layers; otherwise `name` names the single
/// layer. Layer names are resolved by the caller, which is the only party that knows the
/// technology: a rule naming a layer the technology lacks is that caller's error to report.
pub fn parse_rules(json: &str, dbu: i32) -> (r: Result<Rules, String>)
    ensures
        match r {
            Ok(rules) => rules_text(json@, dbu) == Ok::<Map<Seq<char>, LayerView>, Seq<char>>(
                rules@,
            ),
            Err(e) => rules_text(json@, dbu) == Err::<Map<Seq<char>, LayerView>, Seq<char>>(e@),
        },
{
    match parse_json(json) {
        Ok(doc) => rules_of(&doc, dbu),
        Err(e) => {
            let mut message: String = "rules file is not valid JSON: ".to_owned();
            message.append(e.as_str());
            Err(message)
        },
    }
}

} // verus!
