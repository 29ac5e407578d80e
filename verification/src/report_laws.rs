//! What holds of every text that a run gives out: its numbers, its report, its announcements and its
//! description.

use vstd::prelude::*;

use crate::design::PlanView;
use crate::design_laws::own;
use crate::events::{
    announced, filling, fillings, increasing, lemma_sorted, skipping, sorted, EventView, Severity,
};
use crate::fill::Fill;
use crate::report::{
    decimal, digit, layers_filled, lemma_times, names_of, report_text, times, verdict, written_text,
};
use crate::text::{before, begins, lemma_before, replaced};

verus! {

/// The number that decimal digits stand for, the first one for the most.
pub open spec fn number_of(text: Seq<char>) -> int
    decreases text.len(),
{
    if text.len() == 0 {
        0
    } else {
        10 * number_of(text.drop_last()) + (text.last() as int - '0' as int)
    }
}

/// A number is written with decimal digits that stand for it, the first no zero unless it is the only
/// one.
pub proof fn law_decimal(n: nat)
    ensures
        number_of(decimal(n)) == n,
        forall|i: int| 0 <= i < decimal(n).len() ==> '0' <= #[trigger] decimal(n)[i] <= '9',
        decimal(n).len() > 0,
        decimal(n)[0] == '0' ==> n == 0,
    decreases n,
{
    if n < 10 {
        lemma_digit(n);
        let d = decimal(n);
        assert(d.drop_last().len() == 0);
        assert(number_of(d.drop_last()) == 0);
    } else {
        let front = decimal(n / 10);
        let last = digit(n % 10);
        law_decimal(n / 10);
        lemma_digit(n % 10);
        let d = decimal(n);
        assert(d == front + last);
        assert(d.drop_last() =~= front);
        assert(d.last() == last[0]);
        assert(d[0] == front[0]);
    }
}

/// A digit is one character, that many after zero.
proof fn lemma_digit(d: nat)
    requires
        d < 10,
    ensures
        digit(d).len() == 1,
        digit(d)[0] as int == '0' as int + d,
        '0' <= digit(d)[0] <= '9',
{
    reveal_strlit("0");
    reveal_strlit("1");
    reveal_strlit("2");
    reveal_strlit("3");
    reveal_strlit("4");
    reveal_strlit("5");
    reveal_strlit("6");
    reveal_strlit("7");
    reveal_strlit("8");
    reveal_strlit("9");
}

/// Names are in the order of a dictionary: of two that differ, the one comes first that ends first or
/// has the smaller character where they first differ.
pub proof fn law_dictionary_order(a: Seq<char>, b: Seq<char>)
    ensures
        before(a, b) <==> exists|k: int| #[trigger] parts_at(a, b, k) && (k == a.len() || a[k] < b[k])
            && k < b.len(),
    decreases a.len(),
{
    if a.len() > 0 && b.len() > 0 && a[0] == b[0] {
        let (ra, rb) = (a.skip(1), b.skip(1));
        law_dictionary_order(ra, rb);
        if before(a, b) {
            let k = choose|k: int| #[trigger]
                parts_at(ra, rb, k) && (k == ra.len() || ra[k] < rb[k]) && k < rb.len();
            assert(parts_at(a, b, k + 1)) by {
                assert forall|i: int| 0 <= i < k + 1 implies #[trigger] a[i] == b[i] by {
                    if i > 0 {
                        assert(ra[i - 1] == rb[i - 1]);
                    }
                }
            }
        }
        if exists|k: int| #[trigger] parts_at(a, b, k) && (k == a.len() || a[k] < b[k]) && k < b.len() {
            let k = choose|k: int| #[trigger]
                parts_at(a, b, k) && (k == a.len() || a[k] < b[k]) && k < b.len();
            assert(parts_at(ra, rb, k - 1)) by {
                assert forall|i: int| 0 <= i < k - 1 implies #[trigger] ra[i] == rb[i] by {
                    assert(a[i + 1] == b[i + 1]);
                }
            }
        }
    } else {
        if before(a, b) {
            assert(parts_at(a, b, 0));
        }
        if exists|k: int| #[trigger] parts_at(a, b, k) && (k == a.len() || a[k] < b[k]) && k < b.len() {
            let k = choose|k: int| #[trigger]
                parts_at(a, b, k) && (k == a.len() || a[k] < b[k]) && k < b.len();
            if k > 0 {
                assert(a[0] == b[0]);
            }
        }
    }
}

/// Whether two texts are the same up to position `k`.
pub open spec fn parts_at(a: Seq<char>, b: Seq<char>, k: int) -> bool {
    &&& 0 <= k <= a.len()
    &&& k <= b.len()
    &&& forall|i: int| 0 <= i < k ==> #[trigger] a[i] == b[i]
}

/// A text without the token stays as it is; and with one, what stands before it stays, the new text
/// stands in its place, and the rest is treated alike, provided that the token does not occur before
/// its place.
pub proof fn law_replaced(a: Seq<char>, token: Seq<char>, b: Seq<char>, with: Seq<char>)
    requires
        token.len() > 0,
    ensures
        (forall|i: int| 0 <= i < a.len() ==> !begins(#[trigger] a.skip(i), token)) ==> replaced(
            a,
            token,
            with,
        ) == a,
        (forall|i: int| 0 <= i < a.len() ==> !begins(#[trigger] (a + token + b).skip(i), token))
            ==> replaced(a + token + b, token, with) == a + with + replaced(b, token, with),
    decreases a.len(),
{
    let all = a + token + b;
    if a.len() == 0 {
        assert(all.take(token.len() as int) =~= token);
        assert(begins(all, token));
        assert(all.skip(token.len() as int) =~= b);
        assert(a + with + replaced(b, token, with) =~= with + replaced(b, token, with));
        assert(replaced(a, token, with) =~= a);
    } else {
        let rest = a.skip(1);
        law_replaced(rest, token, b, with);
        if forall|i: int| 0 <= i < a.len() ==> !begins(#[trigger] a.skip(i), token) {
            assert(a.skip(0) =~= a);
            assert(!begins(a.skip(0), token));
            assert forall|i: int| 0 <= i < rest.len() implies !begins(#[trigger] rest.skip(i), token) by {
                assert(rest.skip(i) =~= a.skip(i + 1));
                assert(!begins(a.skip(i + 1), token));
            }
            assert(seq![a[0]] + rest =~= a);
        }
        if forall|i: int| 0 <= i < a.len() ==> !begins(#[trigger] all.skip(i), token) {
            assert(all.skip(0) =~= all);
            assert(!begins(all.skip(0), token));
            let tail = rest + token + b;
            assert(all.skip(1) =~= tail);
            assert(all[0] == a[0]);
            assert forall|i: int| 0 <= i < rest.len() implies !begins(#[trigger] tail.skip(i), token) by {
                assert(tail.skip(i) =~= all.skip(i + 1));
                assert(!begins(all.skip(i + 1), token));
            }
            assert(seq![a[0]] + (rest + with + replaced(b, token, with)) =~= a + with + replaced(
                b,
                token,
                with,
            ));
        }
    }
}

/// The count announced for a layer is the number of its own fills.
pub proof fn law_counted(planned: Seq<(Seq<char>, Fill)>, name: Seq<char>)
    ensures
        times(names_of(planned), name) == own(planned, name).len(),
    decreases planned.len(),
{
    if planned.len() > 0 {
        law_counted(planned.drop_last(), name);
        assert(names_of(planned).drop_last() =~= names_of(planned.drop_last()));
        assert(names_of(planned).last() == planned.last().0);
    }
}

/// Where the events of each filled layer stand.
proof fn lemma_fillings(layers: Seq<Seq<char>>, names: Seq<Seq<char>>, k: int)
    ensures
        fillings(layers, names).len() == 2 * layers.len(),
        0 <= k < layers.len() ==> {
            let e = filling(layers[k], times(names, layers[k]));
            fillings(layers, names)[2 * k] == e[0] && fillings(layers, names)[2 * k + 1] == e[1]
        },
    decreases layers.len(),
{
    if layers.len() > 0 {
        lemma_fillings(layers.drop_last(), names, k);
        if k == layers.len() - 1 {
            assert(layers[k] == layers.last());
        } else if 0 <= k < layers.len() {
            assert(layers.drop_last()[k] == layers[k]);
        }
    }
}

/// Whether the event is about this layer, and says this of it.
pub open spec fn says(
    e: EventView,
    severity: Severity,
    code: Seq<char>,
    message: Seq<char>,
    layer: Seq<char>,
) -> bool {
    &&& e.severity == severity
    &&& e.code == code
    &&& e.message == message
    &&& e.objects.len() == 1
    &&& e.objects[0] == "layer:"@ + layer
}

/// A run announces each layer that got fill, once and in the order of the names, with the number of
/// its own fills; then each layer that was skipped, as a warning and in the order of the plan; and at
/// last how many fills there are on how many layers, and whether they are applied or only planned.
pub proof fn law_announced(plan: PlanView, applied: bool)
    ensures
        ({
            let all = announced(plan, applied);
            let layers = sorted(names_of(plan.planned));
            let n = layers.len();
            &&& increasing(layers)
            &&& forall|name: Seq<char>| #[trigger]
                layers.contains(name) <==> own(plan.planned, name).len() > 0
            &&& all.len() == 2 * n + plan.skipped.len() + 1
            &&& forall|k: int|
                0 <= k < n ==> says(
                    all[2 * k],
                    Severity::Info,
                    "FIN-LAYER"@,
                    "FIN-0003 Filling layer "@ + (#[trigger] layers[k]) + "."@,
                    layers[k],
                ) && says(
                    all[2 * k + 1],
                    Severity::Info,
                    "FIN-LAYER-TOTAL"@,
                    "FIN-0004 Total fills: "@ + decimal(own(plan.planned, layers[k]).len()) + "."@,
                    layers[k],
                )
            &&& forall|k: int|
                0 <= k < plan.skipped.len() ==> says(
                    all[2 * n + k],
                    Severity::Warn,
                    "FIN-LAYER-SKIPPED"@,
                    "FIN-0010 Skipping layer "@ + (#[trigger] plan.skipped[k]) + "."@,
                    plan.skipped[k],
                )
            &&& all.last().severity == Severity::Info
            &&& all.last().code == "FIN-DONE"@
            &&& all.last().objects.len() == 0
            &&& all.last().message == "density fill "@ + (if applied {
                "applied"@
            } else {
                "planned"@
            }) + ": "@ + decimal(plan.planned.len()) + " shape(s) over "@ + decimal(n)
                + " layer(s)"@
        }),
{
    let all = announced(plan, applied);
    let names = names_of(plan.planned);
    let layers = sorted(names);
    let n = layers.len();
    lemma_sorted(names);
    assert forall|name: Seq<char>| #[trigger] layers.contains(name) <==> own(plan.planned, name).len()
        > 0 by {
        law_counted(plan.planned, name);
        lemma_times(names, name);
    }
    lemma_fillings(layers, names, 0);
    let skips = plan.skipped.map_values(|l: Seq<char>| skipping(l));
    assert forall|k: int| 0 <= k < n implies says(
        all[2 * k],
        Severity::Info,
        "FIN-LAYER"@,
        "FIN-0003 Filling layer "@ + (#[trigger] layers[k]) + "."@,
        layers[k],
    ) && says(
        all[2 * k + 1],
        Severity::Info,
        "FIN-LAYER-TOTAL"@,
        "FIN-0004 Total fills: "@ + decimal(own(plan.planned, layers[k]).len()) + "."@,
        layers[k],
    ) by {
        lemma_fillings(layers, names, k);
        law_counted(plan.planned, layers[k]);
        assert(all[2 * k] == fillings(layers, names)[2 * k]);
        assert(all[2 * k + 1] == fillings(layers, names)[2 * k + 1]);
    }
    assert forall|k: int| 0 <= k < plan.skipped.len() implies says(
        all[2 * n + k],
        Severity::Warn,
        "FIN-LAYER-SKIPPED"@,
        "FIN-0010 Skipping layer "@ + (#[trigger] plan.skipped[k]) + "."@,
        plan.skipped[k],
    ) by {
        assert(all[2 * n + k] == skips[k]);
        assert(skips[k] == skipping(plan.skipped[k]));
    }
    law_layers_counted(plan);
}

/// The number of layers with fill is the number of names that the fills are under.
pub proof fn law_layers_counted(plan: PlanView)
    ensures
        layers_filled(plan) == sorted(names_of(plan.planned)).len(),
{
    let names = names_of(plan.planned);
    let layers = sorted(names);
    lemma_sorted(names);
    assert(layers.no_duplicates()) by {
        assert forall|i: int, j: int| 0 <= i < layers.len() && 0 <= j < layers.len() && i != j implies layers[i]
            != layers[j] by {
            lemma_before(layers[i], layers[j], layers[i]);
            if i < j {
                assert(before(layers[i], layers[j]));
            } else {
                assert(before(layers[j], layers[i]));
            }
        }
    }
    layers.unique_seq_to_set();
    assert(layers.to_set() =~= names.to_set()) by {
        assert forall|name: Seq<char>| #[trigger] layers.to_set().contains(name) <==> names.to_set().contains(
            name,
        ) by {
            assert(layers.contains(name) <==> names.contains(name));
        }
    }
}

/// Whether a text holds this value behind this key, and something else behind the value.
pub open spec fn tells(text: Seq<char>, key: Seq<char>, value: Seq<char>, end: Seq<char>) -> bool {
    exists|a: Seq<char>, b: Seq<char>| #[trigger]
        between(a, key, value, end, b) == text
}

/// A key, its value and what ends it, between two texts.
pub open spec fn between(
    a: Seq<char>,
    key: Seq<char>,
    value: Seq<char>,
    end: Seq<char>,
    b: Seq<char>,
) -> Seq<char> {
    a + key + value + end + b
}

/// A report tells, each under its own key: the verdict, the number of fills, the number of layers with
/// fill, the number of layers skipped, and the path written in quotes, or that there is none.
pub proof fn law_report_tells(dry_run: bool, plan: PlanView, written: Option<Seq<char>>)
    ensures
        ({
            let text = report_text(dry_run, plan, written);
            &&& tells(text, "\"tool\": \""@, "vyges-fin"@, "\""@)
            &&& tells(
                text,
                "\"status\": \""@,
                if dry_run {
                    "planned"@
                } else if plan.planned.len() == 0 {
                    "vacuous"@
                } else {
                    "filled"@
                },
                "\""@,
            )
            &&& tells(text, "\"fills\": "@, decimal(plan.planned.len()), ","@)
            &&& tells(
                text,
                "\"layers_filled\": "@,
                decimal(sorted(names_of(plan.planned)).len()),
                ","@,
            )
            &&& tells(text, "\"layers_skipped\": "@, decimal(plan.skipped.len()), ","@)
            &&& match written {
                Some(p) => tells(text, "\"odb_written\": \""@, p, "\""@),
                None => tells(text, "\"odb_written\": "@, "null"@, "\n"@),
            }
        }),
{
    law_layers_counted(plan);
    let v = verdict(dry_run, plan.planned.len());
    let f = decimal(plan.planned.len());
    let l = decimal(layers_filled(plan));
    let s = decimal(plan.skipped.len());
    let w = written_text(written);
    let k0 = "{\n  \"tool\": \"vyges-fin\",\n  \"status\": \""@;
    let k1 = "\",\n  \"fills\": "@;
    let k2 = ",\n  \"layers_filled\": "@;
    let k3 = ",\n  \"layers_skipped\": "@;
    let k4 = ",\n  \"odb_written\": "@;
    let k5 = "\n}"@;
    lemma_report_keys();
    let none = Seq::<char>::empty();
    assert(none + k0 =~= k0);
    // Up to each value and what ends it, the text is built up from the left.
    lemma_tells(none, k0, "\"status\": \""@, v, k1, "\""@);
    let t1 = k0 + v + k1;
    lemma_tells(k0 + v, k1, "\"fills\": "@, f, k2, ","@);
    let t2 = t1 + f + k2;
    lemma_tells(t1 + f, k2, "\"layers_filled\": "@, l, k3, ","@);
    let t3 = t2 + l + k3;
    lemma_tells(t2 + l, k3, "\"layers_skipped\": "@, s, k4, ","@);
    let t4 = t3 + s + k4;
    let text = t4 + w + k5;
    assert(text == report_text(dry_run, plan, written));
    let q = "\""@;
    match written {
        Some(p) => {
            lemma_tells(t3 + s, k4 + q, "\"odb_written\": \""@, p, q, q);
            assert(t3 + s + (k4 + q) + p + q =~= t4 + w);
            lemma_tells_on(t4 + w, k5, "\"odb_written\": \""@, p, q);
        },
        None => {
            lemma_tells(t3 + s, k4, "\"odb_written\": "@, "null"@, k5, "\n"@);
        },
    }
    lemma_tells_on(k0, v, "\"tool\": \""@, "vyges-fin"@, q);
    lemma_tells_on(k0 + v, k1, "\"tool\": \""@, "vyges-fin"@, q);
    lemma_carried(t1, f, k2, l, k3, s, k4, w, k5, "\"tool\": \""@, "vyges-fin"@, q);
    lemma_carried(t1, f, k2, l, k3, s, k4, w, k5, "\"status\": \""@, v, q);
    lemma_carried(t2, none, none, l, k3, s, k4, w, k5, "\"fills\": "@, f, ","@);
    lemma_carried(t3, none, none, none, none, s, k4, w, k5, "\"layers_filled\": "@, l, ","@);
    lemma_carried(t4, none, none, none, none, none, none, w, k5, "\"layers_skipped\": "@, s, ","@);
    assert(t2 + none + none =~= t2);
    assert(t3 + none + none + none + none =~= t3);
    assert(t4 + none + none + none + none + none + none =~= t4);
}

/// What a text tells, a longer one does.
proof fn lemma_tells_on(
    text: Seq<char>,
    more: Seq<char>,
    key: Seq<char>,
    value: Seq<char>,
    end: Seq<char>,
)
    requires
        tells(text, key, value, end),
    ensures
        tells(text + more, key, value, end),
{
    let (a, b) = choose|a: Seq<char>, b: Seq<char>| #[trigger]
        between(a, key, value, end, b) == text;
    assert(between(a, key, value, end, b + more) =~= text + more);
}

/// What a text tells, it tells with the rest of the report behind it.
proof fn lemma_carried(
    text: Seq<char>,
    a: Seq<char>,
    b: Seq<char>,
    c: Seq<char>,
    d: Seq<char>,
    e: Seq<char>,
    f: Seq<char>,
    g: Seq<char>,
    h: Seq<char>,
    key: Seq<char>,
    value: Seq<char>,
    end: Seq<char>,
)
    requires
        tells(text, key, value, end),
    ensures
        tells(text + a + b + c + d + e + f + g + h, key, value, end),
{
    lemma_tells_on(text, a, key, value, end);
    lemma_tells_on(text + a, b, key, value, end);
    lemma_tells_on(text + a + b, c, key, value, end);
    lemma_tells_on(text + a + b + c, d, key, value, end);
    lemma_tells_on(text + a + b + c + d, e, key, value, end);
    lemma_tells_on(text + a + b + c + d + e, f, key, value, end);
    lemma_tells_on(text + a + b + c + d + e + f, g, key, value, end);
    lemma_tells_on(text + a + b + c + d + e + f + g, h, key, value, end);
}

/// A text that ends with the key, the value, and a text that begins with what ends it.
proof fn lemma_tells(
    front: Seq<char>,
    label: Seq<char>,
    key: Seq<char>,
    value: Seq<char>,
    next: Seq<char>,
    end: Seq<char>,
)
    requires
        key.len() <= label.len(),
        label.skip(label.len() - key.len()) == key,
        begins(next, end),
    ensures
        tells(front + label + value + next, key, value, end),
{
    let pre = label.take(label.len() - key.len());
    let post = next.skip(end.len() as int);
    assert(pre + key =~= label);
    assert(end + post =~= next);
    assert(between(front + pre, key, value, end, post) =~= front + (pre + key) + value + (end + post));
}

/// What the fixed parts of the report end and begin with.
proof fn lemma_report_keys()
    ensures
        ({
            let k0 = "{\n  \"tool\": \"vyges-fin\",\n  \"status\": \""@;
            let k1 = "\",\n  \"fills\": "@;
            let k2 = ",\n  \"layers_filled\": "@;
            let k3 = ",\n  \"layers_skipped\": "@;
            let k4 = ",\n  \"odb_written\": "@;
            let k5 = "\n}"@;
            &&& tells(k0, "\"tool\": \""@, "vyges-fin"@, "\""@)
            &&& "\"status\": \""@.len() <= k0.len()
            &&& k0.skip(k0.len() - "\"status\": \""@.len()) == "\"status\": \""@
            &&& "\"fills\": "@.len() <= k1.len()
            &&& k1.skip(k1.len() - "\"fills\": "@.len()) == "\"fills\": "@
            &&& "\"layers_filled\": "@.len() <= k2.len()
            &&& k2.skip(k2.len() - "\"layers_filled\": "@.len()) == "\"layers_filled\": "@
            &&& "\"layers_skipped\": "@.len() <= k3.len()
            &&& k3.skip(k3.len() - "\"layers_skipped\": "@.len()) == "\"layers_skipped\": "@
            &&& "\"odb_written\": "@.len() <= k4.len()
            &&& k4.skip(k4.len() - "\"odb_written\": "@.len()) == "\"odb_written\": "@
            &&& "\"odb_written\": \""@.len() <= (k4 + "\""@).len()
            &&& (k4 + "\""@).skip((k4 + "\""@).len() - "\"odb_written\": \""@.len())
                == "\"odb_written\": \""@
            &&& begins(k1, "\""@)
            &&& begins(k2, ","@)
            &&& begins(k3, ","@)
            &&& begins(k4, ","@)
            &&& begins(k5, "\n"@)
            &&& begins("\""@, "\""@)
        }),
{
    reveal_strlit("{\n  \"tool\": \"vyges-fin\",\n  \"status\": \"");
    reveal_strlit("\",\n  \"fills\": ");
    reveal_strlit(",\n  \"layers_filled\": ");
    reveal_strlit(",\n  \"layers_skipped\": ");
    reveal_strlit(",\n  \"odb_written\": ");
    reveal_strlit("\n}");
    reveal_strlit("\"tool\": \"");
    reveal_strlit("vyges-fin");
    reveal_strlit("\"");
    reveal_strlit("\"status\": \"");
    reveal_strlit("\"fills\": ");
    reveal_strlit("\"layers_filled\": ");
    reveal_strlit("\"layers_skipped\": ");
    reveal_strlit("\"odb_written\": \"");
    reveal_strlit("\"odb_written\": ");
    reveal_strlit(",");
    reveal_strlit("\n");
    let k0 = "{\n  \"tool\": \"vyges-fin\",\n  \"status\": \""@;
    let k1 = "\",\n  \"fills\": "@;
    let k2 = ",\n  \"layers_filled\": "@;
    let k3 = ",\n  \"layers_skipped\": "@;
    let k4 = ",\n  \"odb_written\": "@;
    let k5 = "\n}"@;
    let q = "\""@;
    assert(k0 =~= between(k0.take(4), "\"tool\": \""@, "vyges-fin"@, q, k0.skip(23)));
    assert(k0.skip(k0.len() - "\"status\": \""@.len()) =~= "\"status\": \""@);
    assert(k1.skip(k1.len() - "\"fills\": "@.len()) =~= "\"fills\": "@);
    assert(k2.skip(k2.len() - "\"layers_filled\": "@.len()) =~= "\"layers_filled\": "@);
    assert(k3.skip(k3.len() - "\"layers_skipped\": "@.len()) =~= "\"layers_skipped\": "@);
    assert(k4.skip(k4.len() - "\"odb_written\": "@.len()) =~= "\"odb_written\": "@);
    assert((k4 + q).skip((k4 + q).len() - "\"odb_written\": \""@.len())
        =~= "\"odb_written\": \""@);
    assert(k1.take(1) =~= q);
    assert(k2.take(1) =~= ","@);
    assert(k3.take(1) =~= ","@);
    assert(k4.take(1) =~= ","@);
    assert(k5.take(1) =~= "\n"@);
    assert(q.take(1) =~= q);
}

} // verus!
