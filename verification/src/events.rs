//! What a run announces.

use vstd::prelude::*;

use crate::design::{Plan, PlanView};
use crate::names::{has_name, in_name_order, lemma_only, map_of};
use crate::report::{count_layers, counts, decimal, decimal_text, layers_filled, names_of, times};
use crate::text::{before, joined, lemma_before, texts};

verus! {

/// How serious an event is.
#[derive(Debug, Clone, Copy, PartialEq, Eq)]
pub enum Severity {
    Info,
    Warn,
}

/// One thing to announce.
#[derive(Debug)]
pub struct Event {
    pub severity: Severity,
    pub message: String,
    pub code: String,
    /// The objects of the design that the event is about.
    pub objects: Vec<String>,
}

/// What an [`Event`] holds.
#[verifier::ext_equal]
pub struct EventView {
    pub severity: Severity,
    pub message: Seq<char>,
    pub code: Seq<char>,
    pub objects: Seq<Seq<char>>,
}

impl View for Event {
    type V = EventView;

    open spec fn view(&self) -> EventView {
        EventView {
            severity: self.severity,
            message: self.message@,
            code: self.code@,
            objects: texts(self.objects@),
        }
    }
}

/// What events hold.
pub open spec fn event_views(events: Seq<Event>) -> Seq<EventView> {
    Seq::new(events.len(), |i: int| events[i]@)
}

/// An event about a layer.
pub open spec fn about_layer(
    severity: Severity,
    message: Seq<char>,
    code: Seq<char>,
    layer: Seq<char>,
) -> EventView {
    EventView { severity, message, code, objects: seq!["layer:"@ + layer] }
}

/// A layer is filled, with this many fills.
pub open spec fn filling(layer: Seq<char>, fills: nat) -> Seq<EventView> {
    seq![
        about_layer(
            Severity::Info,
            "FIN-0003 Filling layer "@ + layer + "."@,
            "FIN-LAYER"@,
            layer,
        ),
        about_layer(
            Severity::Info,
            "FIN-0004 Total fills: "@ + decimal(fills) + "."@,
            "FIN-LAYER-TOTAL"@,
            layer,
        ),
    ]
}

/// A layer is skipped. Saying so is the difference between no rule and nothing to fill.
pub open spec fn skipping(layer: Seq<char>) -> EventView {
    about_layer(
        Severity::Warn,
        "FIN-0010 Skipping layer "@ + layer + "."@,
        "FIN-LAYER-SKIPPED"@,
        layer,
    )
}

/// The fill is done.
pub open spec fn done(applied: bool, plan: PlanView) -> EventView {
    EventView {
        severity: Severity::Info,
        message: "density fill "@ + (if applied {
            "applied"@
        } else {
            "planned"@
        }) + ": "@ + decimal(plan.planned.len()) + " shape(s) over "@ + decimal(
            layers_filled(plan),
        ) + " layer(s)"@,
        code: "FIN-DONE"@,
        objects: Seq::empty(),
    }
}

/// Whether the names come in strictly increasing order.
pub open spec fn increasing(names: Seq<Seq<char>>) -> bool {
    forall|i: int, j: int|
        0 <= i < j < names.len() ==> before(#[trigger] names[i], #[trigger] names[j])
}

/// Whether `sorted` holds each of the names once, in increasing order.
pub open spec fn sorts(sorted: Seq<Seq<char>>, names: Seq<Seq<char>>) -> bool {
    increasing(sorted) && forall|n: Seq<char>| #[trigger] sorted.contains(n) <==> names.contains(n)
}

/// Names in increasing order, with `name` put in its place.
pub open spec fn put(names: Seq<Seq<char>>, name: Seq<char>) -> Seq<Seq<char>>
    decreases names.len(),
{
    if names.len() == 0 || before(name, names[0]) {
        seq![name] + names
    } else if name == names[0] {
        names
    } else {
        seq![names[0]] + put(names.skip(1), name)
    }
}

/// Each of the names once, in increasing order.
pub open spec fn sorted(names: Seq<Seq<char>>) -> Seq<Seq<char>>
    decreases names.len(),
{
    if names.len() == 0 {
        Seq::empty()
    } else {
        put(sorted(names.drop_last()), names.last())
    }
}

/// A name put in its place is there, and nothing else is new.
proof fn lemma_put(names: Seq<Seq<char>>, name: Seq<char>)
    requires
        increasing(names),
    ensures
        increasing(put(names, name)),
        forall|n: Seq<char>| #[trigger]
            put(names, name).contains(n) <==> names.contains(n) || n == name,
    decreases names.len(),
{
    let all = put(names, name);
    if names.len() == 0 || before(name, names[0]) {
        assert forall|i: int, j: int| 0 <= i < j < all.len() implies before(
            #[trigger] all[i],
            #[trigger] all[j],
        ) by {
            if i == 0 {
                if j > 1 {
                    assert(before(names[0], names[j - 1]));
                    lemma_before(name, names[0], names[j - 1]);
                }
            } else {
                assert(before(names[i - 1], names[j - 1]));
            }
        }
        assert forall|n: Seq<char>| #[trigger] all.contains(n) <==> names.contains(n) || n
            == name by {
            lemma_front(name, names, n);
        }
    } else if name == names[0] {
        assert(names.contains(name));
    } else {
        let rest = names.skip(1);
        assert forall|x: int, y: int| 0 <= x < y < rest.len() implies before(
            #[trigger] rest[x],
            #[trigger] rest[y],
        ) by {
            assert(before(names[x + 1], names[y + 1]));
        }
        lemma_put(rest, name);
        let tail = put(rest, name);
        lemma_before(names[0], name, name);
        assert forall|i: int, j: int| 0 <= i < j < all.len() implies before(
            #[trigger] all[i],
            #[trigger] all[j],
        ) by {
            if i == 0 {
                assert(tail.contains(tail[j - 1]));
                if rest.contains(tail[j - 1]) {
                    let k = choose|k: int| 0 <= k < rest.len() && rest[k] == tail[j - 1];
                    assert(before(names[0], names[k + 1]));
                }
            } else {
                assert(before(tail[i - 1], tail[j - 1]));
            }
        }
        assert forall|n: Seq<char>| #[trigger] all.contains(n) <==> names.contains(n) || n
            == name by {
            lemma_front(names[0], tail, n);
            lemma_front(names[0], rest, n);
            assert(names =~= seq![names[0]] + rest);
            assert(tail.contains(n) <==> rest.contains(n) || n == name);
        }
    }
}

/// What stands in a sequence with one more in front.
proof fn lemma_front(first: Seq<char>, names: Seq<Seq<char>>, n: Seq<char>)
    ensures
        (seq![first] + names).contains(n) <==> n == first || names.contains(n),
{
    let all = seq![first] + names;
    assert(all[0] == first);
    if all.contains(n) && n != first {
        let i = choose|i: int| 0 <= i < all.len() && all[i] == n;
        assert(names[i - 1] == n);
    }
    if names.contains(n) {
        let i = choose|i: int| 0 <= i < names.len() && names[i] == n;
        assert(all[i + 1] == n);
    }
}

/// Sorting leaves each name once, in increasing order.
pub proof fn lemma_sorted(names: Seq<Seq<char>>)
    ensures
        sorts(sorted(names), names),
    decreases names.len(),
{
    if names.len() > 0 {
        let rest = names.drop_last();
        lemma_sorted(rest);
        lemma_put(sorted(rest), names.last());
        assert forall|n: Seq<char>| #[trigger] sorted(names).contains(n) <==> names.contains(n) by {
            assert(sorted(rest).contains(n) <==> rest.contains(n));
            let last = names.len() - 1;
            assert(names[last] == names.last());
            if rest.contains(n) {
                let i = choose|i: int| 0 <= i < rest.len() && rest[i] == n;
                assert(names[i] == n);
            }
            if names.contains(n) && n != names.last() {
                let i = choose|i: int| 0 <= i < names.len() && names[i] == n;
                assert(rest[i] == n);
            }
        }
    }
}

/// Names in increasing order are decided by which names they are.
pub proof fn lemma_sorted_unique(a: Seq<Seq<char>>, b: Seq<Seq<char>>)
    requires
        increasing(a),
        increasing(b),
        forall|n: Seq<char>| #[trigger] a.contains(n) <==> b.contains(n),
    ensures
        a == b,
    decreases a.len(),
{
    if a.len() == 0 {
        if b.len() > 0 {
            assert(b.contains(b[0]) && a.contains(b[0]));
        }
        assert(a =~= b);
    } else {
        assert(a.contains(a[0]));
        let j = choose|j: int| 0 <= j < b.len() && b[j] == a[0];
        assert(b.contains(b[0]) && a.contains(b[0]));
        let k = choose|k: int| 0 <= k < a.len() && a[k] == b[0];
        lemma_before(a[0], b[0], a[0]);
        if j > 0 {
            assert(before(b[0], b[j]));
            if k > 0 {
                assert(before(a[0], a[k]));
            }
        }
        assert(a[0] == b[0]);
        let (ra, rb) = (a.skip(1), b.skip(1));
        assert forall|n: Seq<char>| #[trigger] ra.contains(n) <==> rb.contains(n) by {
            lemma_rest(a, n);
            lemma_rest(b, n);
            assert(a.contains(n) <==> b.contains(n));
        }
        assert(increasing(ra)) by {
            assert forall|x: int, y: int| 0 <= x < y < ra.len() implies before(
                #[trigger] ra[x],
                #[trigger] ra[y],
            ) by {
                assert(before(a[x + 1], a[y + 1]));
            }
        }
        assert(increasing(rb)) by {
            assert forall|x: int, y: int| 0 <= x < y < rb.len() implies before(
                #[trigger] rb[x],
                #[trigger] rb[y],
            ) by {
                assert(before(b[x + 1], b[y + 1]));
            }
        }
        lemma_sorted_unique(ra, rb);
        assert(a =~= seq![a[0]] + ra);
        assert(b =~= seq![b[0]] + rb);
    }
}

/// Behind the first of names in increasing order come all the others.
proof fn lemma_rest(names: Seq<Seq<char>>, n: Seq<char>)
    requires
        increasing(names),
        names.len() > 0,
    ensures
        names.skip(1).contains(n) <==> names.contains(n) && n != names[0],
{
    let rest = names.skip(1);
    if rest.contains(n) {
        let i = choose|i: int| 0 <= i < rest.len() && rest[i] == n;
        assert(names[i + 1] == n);
        assert(before(names[0], names[i + 1]));
        lemma_before(n, n, n);
    }
    if names.contains(n) && n != names[0] {
        let i = choose|i: int| 0 <= i < names.len() && names[i] == n;
        assert(rest[i - 1] == n);
    }
}

/// The events of the layers that are filled, in the order given.
pub open spec fn fillings(layers: Seq<Seq<char>>, names: Seq<Seq<char>>) -> Seq<EventView>
    decreases layers.len(),
{
    if layers.len() == 0 {
        Seq::empty()
    } else {
        fillings(layers.drop_last(), names) + filling(layers.last(), times(names, layers.last()))
    }
}

/// What a run announces: each layer that is filled, in the order of their names; each layer that is
/// skipped; and that the fill is done.
pub open spec fn announced(plan: PlanView, applied: bool) -> Seq<EventView> {
    let names = names_of(plan.planned);
    fillings(sorted(names), names) + plan.skipped.map_values(|l: Seq<char>| skipping(l)).push(
        done(applied, plan),
    )
}

fn layer_event(severity: Severity, message: String, code: &str, layer: &str) -> (e: Event)
    ensures
        e@ == about_layer(severity, message@, code@, layer@),
{
    let mut objects: Vec<String> = Vec::new();
    let object = joined("layer:", layer, "");
    assert(object@ =~= "layer:"@ + layer@) by {
        reveal_strlit("");
    }
    objects.push(object);
    let e = Event { severity, message, code: code.to_owned(), objects };
    assert(e@.objects =~= seq!["layer:"@ + layer@]);
    e
}

/// The events of a run.
pub fn events(plan: &Plan, applied: bool) -> (r: Vec<Event>)
    ensures
        event_views(r@) == announced(plan@, applied),
{
    let ghost names = names_of(plan@.planned);
    let per_layer = count_layers(&plan.planned);
    let layers: usize = per_layer.len();
    let ghost list = per_layer.list();
    let ghost order = Seq::new(list.len(), |i: int| list[i].0@);
    proof {
        lemma_order(per_layer@, list, names);
        assert(per_layer@.dom() =~= names.to_set()) by {
            assert forall|n: Seq<char>| #[trigger] per_layer@.dom().contains(
                n,
            ) <==> names.to_set().contains(n) by {
                assert(per_layer@.contains_key(n) <==> names.contains(n));
            }
        }
    }
    let mut r: Vec<Event> = Vec::new();
    let mut i: usize = 0;
    assert(event_views(r@) =~= Seq::empty());
    assert(order.take(0) =~= Seq::empty());
    while i < layers
        invariant
            i <= layers == list.len(),
            list == per_layer.list(),
            order == Seq::new(list.len(), |k: int| list[k].0@),
            forall|k: int|
                0 <= k < list.len() ==> (#[trigger] list[k]).1 == times(names, list[k].0@),
            event_views(r@) == fillings(order.take(i as int), names),
        decreases layers - i,
    {
        let ghost before = event_views(r@);
        let (name, count) = per_layer.entry(i);
        let n: usize = *count;
        assert(list[i as int].1 == times(names, list[i as int].0@));
        r.push(
            layer_event(
                Severity::Info,
                joined("FIN-0003 Filling layer ", name.as_str(), "."),
                "FIN-LAYER",
                name.as_str(),
            ),
        );
        r.push(
            layer_event(
                Severity::Info,
                joined("FIN-0004 Total fills: ", decimal_text(n).as_str(), "."),
                "FIN-LAYER-TOTAL",
                name.as_str(),
            ),
        );
        assert(event_views(r@) =~= before + filling(name@, n as nat));
        assert(order.take(i + 1).drop_last() =~= order.take(i as int));
        assert(order.take(i + 1).last() == name@);
        i = i + 1;
    }
    assert(order.take(i as int) =~= order);
    let ghost first = event_views(r@);
    let ghost skips = plan@.skipped.map_values(|l: Seq<char>| skipping(l));
    let mut k: usize = 0;
    assert(first + skips.take(0) =~= first);
    while k < plan.skipped.len()
        invariant
            k <= plan.skipped@.len(),
            skips == plan@.skipped.map_values(|l: Seq<char>| skipping(l)),
            event_views(r@) == first + skips.take(k as int),
        decreases plan.skipped.len() - k,
    {
        let ghost before = event_views(r@);
        let layer = plan.skipped[k].as_str();
        r.push(
            layer_event(
                Severity::Warn,
                joined("FIN-0010 Skipping layer ", layer, "."),
                "FIN-LAYER-SKIPPED",
                layer,
            ),
        );
        assert(skips[k as int] == skipping(layer@));
        assert(event_views(r@) =~= before.push(skipping(layer@)));
        assert(skips.take(k + 1) =~= skips.take(k as int).push(skips[k as int]));
        assert(event_views(r@) =~= first + skips.take(k + 1));
        k = k + 1;
    }
    assert(skips.take(k as int) =~= skips);
    let ghost before = event_views(r@);
    let mut message: String = "density fill ".to_owned();
    if applied {
        message.append("applied");
    } else {
        message.append("planned");
    }
    message.append(": ");
    message.append(decimal_text(plan.planned.len()).as_str());
    message.append(" shape(s) over ");
    message.append(decimal_text(layers).as_str());
    message.append(" layer(s)");
    let last = Event {
        severity: Severity::Info,
        message,
        code: "FIN-DONE".to_owned(),
        objects: Vec::new(),
    };
    assert(last@ =~= done(applied, plan@));
    r.push(last);
    assert(event_views(r@) =~= before.push(done(applied, plan@)));
    assert(event_views(r@) =~= announced(plan@, applied));
    r
}

/// The entries of the counts are the sorted names with their counts.
proof fn lemma_order(
    map: Map<Seq<char>, usize>,
    list: Seq<(String, usize)>,
    names: Seq<Seq<char>>,
)
    requires
        counts(map, names),
        in_name_order(list),
        map == map_of(list),
    ensures
        Seq::new(list.len(), |i: int| list[i].0@) == sorted(names),
        forall|k: int| 0 <= k < list.len() ==> (#[trigger] list[k]).1 == times(names, list[k].0@),
{
    let order = Seq::new(list.len(), |i: int| list[i].0@);
    assert forall|i: int, j: int| 0 <= i < j < order.len() implies before(
        #[trigger] order[i],
        #[trigger] order[j],
    ) by {
        assert(before(list[i].0@, list[j].0@));
    }
    assert forall|n: Seq<char>| #[trigger] order.contains(n) <==> names.contains(n) by {
        assert(map.contains_key(n) <==> names.contains(n));
        assert(map.contains_key(n) <==> has_name(list, n));
        if order.contains(n) {
            let i = choose|i: int| 0 <= i < order.len() && order[i] == n;
            assert(list[i].0@ == n);
        }
        if has_name(list, n) {
            let i = choose|i: int| 0 <= i < list.len() && (#[trigger] list[i]).0@ == n;
            assert(order[i] == n);
        }
    }
    assert(sorts(order, names));
    lemma_sorted(names);
    assert forall|n: Seq<char>| #[trigger] order.contains(n) <==> sorted(names).contains(n) by {
        assert(sorted(names).contains(n) <==> names.contains(n));
    }
    lemma_sorted_unique(order, sorted(names));
    assert forall|k: int| 0 <= k < list.len() implies (#[trigger] list[k]).1 == times(
        names,
        list[k].0@,
    ) by {
        lemma_only(list, k);
        assert(map.contains_key(list[k].0@));
    }
}

} // verus!
