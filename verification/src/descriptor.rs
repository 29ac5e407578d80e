//! The machine-readable description of the command.

use vstd::prelude::*;

use crate::text::{begins, replace_all, replaced};

verus! {

/// Stands in the description for the commit that a build was made against.
pub const PIN_TOKEN: &'static str = "@OPENROAD_PIN@";

/// The description, with [`PIN_TOKEN`] where the commit belongs.
pub const DESCRIBE: &'static str = r#"{
  "schema": "vyges-tool-descriptor/1.1",
  "openroad_pin": "@OPENROAD_PIN@",
  "name": "fin",
  "summary": "density fill: metal fill shapes placed in the gaps to meet per-layer density rules",
  "maturity": "structured",
  "provenance_limitations": [
      "input_hash covers the argument vector, not the content of the .odb or the rules file it names.",
      "status is one of filled, planned, vacuous or error. VACUOUS IS NOT FILLED: it means the run placed no shape at all, and the declared assertion passes only on filled, so a no-op fails it rather than reporting a fill that did not happen. Zero can still be the right answer -- a design already above every density floor needs no fill -- so read fills and layers_filled and decide. A dry run reports planned, which never claimed to have filled anything.",
      "Validated against OpenROAD density fill at a pinned commit across five designs covering a power grid, a macro, a non-rectangular core and a restricted --area: every fill shape matches in layer, mask, OPC flag and coordinates.",
      "Also checked against invariants that need no reference: every fill is a whole shape of a size the rules declare, and no two fills on a layer overlap. Those hold of any correct fill.",
      "Existing fill is CLEARED before filling: fill is regenerated wholesale, never patched, so re-running is idempotent rather than cumulative.",
      "Non-fill area is the union, per layer, of every placed instance's shapes, every net's routed wire boxes (vias decomposed), and every obstruction. A layer the rules do not mention is skipped and reported.",
      "The tiling is a fixed grid anchored at each sub-area's bounding box. Upstream notes KLayout sweeps the tile origin looking for maximum fill and does not do so; neither does this, so fill density is not maximal by construction.",
      "prune() is conservative: it forbids fill near two regions that are closer than the fill spacing, which may exclude a position that would in fact have been legal.",
      "OPC fill is placed only where the rules state an `opc` section, and only after non-OPC fill, clearing both the design and the fill just placed.",
      "Correlated at pin @OPENROAD_PIN@: 5 of 5 designs reproduce OpenROAD density fill exactly, fill for fill (26360, 7518, 25095, 12437, 758 shapes). Re-measured there on 2026-08-23 and identical to the previous pin @OPENROAD_PIN@, so this engine carried the re-pin with zero movement -- measured, not assumed. Only one case has an upstream golden; the other four are ours, scored against an oracle run at our own pin. The algorithm is reimplemented from the published behaviour, not transliterated."
  ],
  "invocation": {
    "args_template": ["density-fill", "{odb}"],
    "optional": [
      { "arg": "out", "flag": "-o" },
      { "arg": "out_odb", "flag": "--out-odb" }
    ],
    "emits_json": true
  },
  "inputs": {
    "type": "object",
    "required": ["odb", "rules"],
    "properties": {
      "odb": { "type": "string", "description": "path to the design database (.odb)" },
      "rules": { "type": "string", "description": "path to the JSON fill rules" },
      "area": { "type": "string", "description": "fill rectangle in microns, 'lx ly ux uy'" },
      "out_odb": { "type": "string", "description": "write the database here instead of in place" },
      "out": { "type": "string", "description": "write the report to FILE instead of stdout" }
    }
  },
  "consumes": ["odb"],
  "produces": ["odb"],
  "artifacts": [ { "role": "fill_report", "field": "report_path" } ],
  "assertion": {
    "id": "fill-placed",
    "field": "status",
    "pass_when": { "eq": "filled" }
  }
}
"#;

/// The description that a build made against the commit `pin` prints.
pub fn describe(pin: &str) -> (r: String)
    ensures
        r@ == replaced(DESCRIBE@, PIN_TOKEN@, pin@),
{
    replace_all(DESCRIBE, PIN_TOKEN, pin)
}

/// Whether `token` stands at position `i`.
pub open spec fn occurs_at(text: Seq<char>, token: Seq<char>, i: int) -> bool {
    0 <= i <= text.len() && begins(text.skip(i), token)
}

/// An end of the token that a replaced text begins with comes from the text itself.
proof fn lemma_end_of_token(
    text: Seq<char>,
    token: Seq<char>,
    with: Seq<char>,
    end: Seq<char>,
)
    requires
        0 < end.len() <= token.len() <= with.len(),
        end.last() == token.last(),
        !with.contains(token.last()),
        begins(replaced(text, token, with), end),
    ensures
        begins(text, end),
    decreases text.len(),
{
    let out = replaced(text, token, with);
    if text.len() >= token.len() {
        if begins(text, token) {
            let tail = replaced(text.skip(token.len() as int), token, with);
            let last = end.len() - 1;
            assert(out == with + tail);
            assert(out.take(end.len() as int)[last] == end[last]);
            assert(with[last] == token.last());
        } else {
            let tail = replaced(text.skip(1), token, with);
            assert(out == seq![text[0]] + tail);
            assert(out.take(end.len() as int)[0] == end[0]);
            if end.len() > 1 {
                assert(out.take(end.len() as int).skip(1) =~= tail.take(end.len() - 1));
                assert(end.skip(1) == tail.take(end.len() - 1));
                assert(begins(tail, end.skip(1)));
                lemma_end_of_token(text.skip(1), token, with, end.skip(1));
                assert(text.take(end.len() as int) =~= seq![text[0]] + text.skip(1).take(
                    end.len() - 1,
                ));
                assert(end =~= seq![end[0]] + end.skip(1));
            } else {
                assert(text.take(1) =~= end);
            }
        }
    }
}

/// No token is left after a replacement: none survives, and none comes about where the new text
/// meets the old, provided that the new text is no shorter than the token and holds neither of the
/// characters at its ends. A full commit hash is such a text for [`PIN_TOKEN`].
pub proof fn law_no_token_left(text: Seq<char>, token: Seq<char>, with: Seq<char>, i: int)
    requires
        0 < token.len() <= with.len(),
        !with.contains(token[0]),
        !with.contains(token.last()),
    ensures
        !occurs_at(replaced(text, token, with), token, i),
    decreases text.len(),
{
    let out = replaced(text, token, with);
    if occurs_at(out, token, i) {
        let n = token.len() as int;
        assert(out.skip(i).take(n)[0] == token[0]);
        if text.len() < n {
            assert(false);
        } else if begins(text, token) {
            let tail = replaced(text.skip(n), token, with);
            assert(out == with + tail);
            if i < with.len() {
                assert(with[i] == token[0]);
            } else {
                assert(out.skip(i) =~= tail.skip(i - with.len()));
                law_no_token_left(text.skip(n), token, with, i - with.len());
            }
        } else {
            let tail = replaced(text.skip(1), token, with);
            assert(out == seq![text[0]] + tail);
            if i > 0 {
                assert(out.skip(i) =~= tail.skip(i - 1));
                law_no_token_left(text.skip(1), token, with, i - 1);
            } else {
                assert(out.skip(0) =~= out);
                assert(text[0] == token[0]);
                if n > 1 {
                    assert(out.take(n).skip(1) =~= tail.take(n - 1));
                    assert(begins(tail, token.skip(1)));
                    lemma_end_of_token(text.skip(1), token, with, token.skip(1));
                    assert(text.take(n) =~= seq![text[0]] + text.skip(1).take(n - 1));
                    assert(token =~= seq![token[0]] + token.skip(1));
                } else {
                    assert(text.take(1) =~= token);
                }
            }
        }
    }
}

} // verus!
