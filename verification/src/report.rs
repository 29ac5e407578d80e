//! What a run reports.

use vstd::prelude::*;

use crate::design::{named_fills, Plan, PlanView};
use crate::fill::Fill;
use crate::names::NameMap;

verus! {

/// The verdict word for a run that placed this many fills.
pub open spec fn verdict(dry_run: bool, fills: nat) -> Seq<char> {
    if dry_run {
        "planned"@
    } else if fills == 0 {
        "vacuous"@
    } else {
        "filled"@
    }
}

/// The verdict word for a run that placed `fills` shapes.
///
/// A pass word asserts that work was done; if none was, it is not said. A run that placed nothing is
/// `vacuous`, which is no error: a design already above every density floor needs no fill. A dry run
/// is `planned`, which never claims to have filled anything.
pub fn settle_status(dry_run: bool, fills: usize) -> (r: &'static str)
    ensures
        r@ == verdict(dry_run, fills as nat),
{
    if dry_run {
        return "planned";
    }
    if fills == 0 {
        return "vacuous";
    }
    "filled"
}

/// `filled` is said of exactly the runs that were no dry run and placed something, `vacuous` of those
/// that placed nothing, and `planned` of dry runs.
pub proof fn law_filled_means_filled(dry_run: bool, fills: nat)
    ensures
        verdict(dry_run, fills) == "filled"@ <==> !dry_run && fills > 0,
        verdict(dry_run, fills) == "planned"@ <==> dry_run,
        verdict(dry_run, fills) == "vacuous"@ <==> !dry_run && fills == 0,
{
    reveal_strlit("filled");
    reveal_strlit("planned");
    reveal_strlit("vacuous");
    assert("filled"@[0] == 'f');
    assert("planned"@[0] == 'p');
    assert("vacuous"@[0] == 'v');
}

/// A decimal digit.
pub open spec fn digit(d: nat) -> Seq<char> {
    if d == 0 {
        "0"@
    } else if d == 1 {
        "1"@
    } else if d == 2 {
        "2"@
    } else if d == 3 {
        "3"@
    } else if d == 4 {
        "4"@
    } else if d == 5 {
        "5"@
    } else if d == 6 {
        "6"@
    } else if d == 7 {
        "7"@
    } else if d == 8 {
        "8"@
    } else {
        "9"@
    }
}

/// A number in decimal notation.
pub open spec fn decimal(n: nat) -> Seq<char>
    decreases n,
{
    if n < 10 {
        digit(n)
    } else {
        decimal(n / 10) + digit(n % 10)
    }
}

fn digit_text(d: usize) -> (r: &'static str)
    requires
        d < 10,
    ensures
        r@ == digit(d as nat),
{
    if d == 0 {
        "0"
    } else if d == 1 {
        "1"
    } else if d == 2 {
        "2"
    } else if d == 3 {
        "3"
    } else if d == 4 {
        "4"
    } else if d == 5 {
        "5"
    } else if d == 6 {
        "6"
    } else if d == 7 {
        "7"
    } else if d == 8 {
        "8"
    } else {
        "9"
    }
}

/// A number in decimal notation.
pub(crate) fn decimal_text(n: usize) -> (r: String)
    ensures
        r@ == decimal(n as nat),
    decreases n,
{
    if n < 10 {
        digit_text(n).to_owned()
    } else {
        let mut r: String = decimal_text(n / 10);
        r.append(digit_text(n % 10));
        r
    }
}

/// The names of the layers of fills, one for each fill.
pub open spec fn names_of(planned: Seq<(Seq<char>, Fill)>) -> Seq<Seq<char>> {
    Seq::new(planned.len(), |i: int| planned[i].0)
}

/// How often a name occurs.
pub open spec fn times(names: Seq<Seq<char>>, name: Seq<char>) -> nat
    decreases names.len(),
{
    if names.len() == 0 {
        0
    } else {
        times(names.drop_last(), name) + if names.last() == name {
            1nat
        } else {
            0nat
        }
    }
}

/// A name occurs as often as there are names, at most, and not at all where it is none of them.
pub proof fn lemma_times(names: Seq<Seq<char>>, name: Seq<char>)
    ensures
        times(names, name) <= names.len(),
        times(names, name) > 0 <==> names.contains(name),
    decreases names.len(),
{
    if names.len() > 0 {
        lemma_times(names.drop_last(), name);
        let last = names.len() - 1;
        if names.drop_last().contains(name) {
            let i = choose|i: int| 0 <= i < last && names.drop_last()[i] == name;
            assert(names[i] == name);
        }
        if names.contains(name) && names.last() != name {
            let i = choose|i: int| 0 <= i < names.len() && names[i] == name;
            assert(names.drop_last()[i] == name);
        }
        assert(names[last] == names.last());
    }
}

/// Whether the map holds each of the names with the number of times that it occurs.
pub open spec fn counts(map: Map<Seq<char>, usize>, names: Seq<Seq<char>>) -> bool {
    forall|name: Seq<char>|
        {
            &&& #[trigger] map.contains_key(name) <==> names.contains(name)
            &&& map.contains_key(name) ==> map[name] == times(names, name)
        }
}

/// The number of fills on each layer that has any.
pub fn count_layers(planned: &Vec<(String, Fill)>) -> (r: NameMap<usize>)
    ensures
        counts(r@, names_of(named_fills(planned@))),
{
    let ghost names = names_of(named_fills(planned@));
    let mut r: NameMap<usize> = NameMap::new();
    let mut i: usize = 0;
    while i < planned.len()
        invariant
            i <= planned@.len(),
            names == names_of(named_fills(planned@)),
            counts(r@, names.take(i as int)),
        decreases planned.len() - i,
    {
        let ghost old_map = r@;
        let ghost before = names.take(i as int);
        let ghost now = names.take(i + 1);
        assert(now.drop_last() =~= before);
        let name = &planned[i].0;
        assert(now.last() == name@);
        let so_far: usize = match r.get(name.as_str()) {
            Some(n) => *n,
            None => 0,
        };
        proof {
            lemma_times(before, name@);
        }
        r.insert(name.clone(), so_far + 1);
        assert forall|n: Seq<char>|
            {
                &&& #[trigger] r@.contains_key(n) <==> now.contains(n)
                &&& r@.contains_key(n) ==> r@[n] == times(now, n)
            } by {
            lemma_times(before, n);
            lemma_times(now, n);
            assert(old_map.contains_key(n) <==> before.contains(n));
        }
        i = i + 1;
    }
    assert(names.take(i as int) =~= names);
    r
}

/// The number of layers that have any fill.
pub open spec fn layers_filled(plan: PlanView) -> nat {
    names_of(plan.planned).to_set().len()
}

/// A path in quotes, or `null` for none.
pub open spec fn written_text(written: Option<Seq<char>>) -> Seq<char> {
    match written {
        Some(p) => "\""@ + p + "\""@,
        None => "null"@,
    }
}

/// The report of a run.
pub open spec fn report_text(dry_run: bool, plan: PlanView, written: Option<Seq<char>>) -> Seq<
    char,
> {
    "{\n  \"tool\": \"vyges-fin\",\n  \"status\": \""@ + verdict(dry_run, plan.planned.len())
        + "\",\n  \"fills\": "@ + decimal(plan.planned.len()) + ",\n  \"layers_filled\": "@
        + decimal(layers_filled(plan)) + ",\n  \"layers_skipped\": "@ + decimal(plan.skipped.len())
        + ",\n  \"odb_written\": "@ + written_text(written) + "\n}"@
}

/// The path that a string holds, if there is one.
pub open spec fn path_of(path: Option<String>) -> Option<Seq<char>> {
    match path {
        Some(p) => Some(p@),
        None => None,
    }
}

/// Writes the report of a run.
pub fn report(dry_run: bool, plan: &Plan, written: &Option<String>) -> (r: String)
    ensures
        r@ == report_text(dry_run, plan@, path_of(*written)),
{
    let per_layer = count_layers(&plan.planned);
    let layers: usize = per_layer.len();
    proof {
        let names = names_of(plan@.planned);
        assert(per_layer@.dom() =~= names.to_set()) by {
            assert forall|n: Seq<char>| #[trigger] per_layer@.dom().contains(
                n,
            ) <==> names.to_set().contains(n) by {
                assert(per_layer@.contains_key(n) <==> names.contains(n));
            }
        }
    }
    let mut r: String = "{\n  \"tool\": \"vyges-fin\",\n  \"status\": \"".to_owned();
    r.append(settle_status(dry_run, plan.planned.len()));
    r.append("\",\n  \"fills\": ");
    r.append(decimal_text(plan.planned.len()).as_str());
    r.append(",\n  \"layers_filled\": ");
    r.append(decimal_text(layers).as_str());
    r.append(",\n  \"layers_skipped\": ");
    r.append(decimal_text(plan.skipped.len()).as_str());
    r.append(",\n  \"odb_written\": ");
    match written {
        Some(p) => {
            let mut quoted: String = "\"".to_owned();
            quoted.append(p.as_str());
            quoted.append("\"");
            r.append(quoted.as_str());
        },
        None => {
            r.append("null");
        },
    }
    r.append("\n}");
    r
}

} // verus!
