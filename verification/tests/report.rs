use vyges_fin::design::Plan;
use vyges_fin::events::{events, Severity};
use vyges_fin::geometry::Rect;
use vyges_fin::report::report;
use vyges_fin::{settle_status, Fill};

#[test]
fn a_run_that_filled_nothing_is_not_reported_as_filled() {
    assert_eq!(settle_status(false, 0), "vacuous");
    assert_eq!(settle_status(false, 1), "filled");
}

#[test]
fn a_dry_run_never_claims_to_have_filled_anything() {
    assert_eq!(settle_status(true, 0), "planned");
    assert_eq!(settle_status(true, 5), "planned");
}

fn plan(layers: &[&str], skipped: &[&str]) -> Plan {
    let fill = Fill {
        rect: Rect::new(0, 0, 1, 1),
        mask: 0,
        needs_opc: false,
    };
    Plan {
        planned: layers.iter().map(|l| (l.to_string(), fill)).collect(),
        skipped: skipped.iter().map(|l| l.to_string()).collect(),
    }
}

#[test]
fn the_report_counts_fills_and_layers() {
    let mut layers = vec!["met2"; 100];
    layers.extend(vec!["met1"; 23]);
    let text = report(
        false,
        &plan(&layers, &["li1", "met5"]),
        &Some("out.odb".to_string()),
    );
    assert_eq!(
        text,
        "{\n  \"tool\": \"vyges-fin\",\n  \"status\": \"filled\",\n  \"fills\": 123,\n  \"layers_filled\": 2,\n  \"layers_skipped\": 2,\n  \"odb_written\": \"out.odb\"\n}"
    );
    let v: serde_json::Value = serde_json::from_str(&text).expect("JSON");
    assert_eq!(v["fills"], 123);
}

#[test]
fn a_dry_run_reports_that_nothing_was_written() {
    let text = report(true, &plan(&["met1"], &[]), &None);
    let v: serde_json::Value = serde_json::from_str(&text).expect("JSON");
    assert_eq!(v["status"], "planned");
    assert!(v["odb_written"].is_null());
    let none = report(false, &plan(&[], &["met1"]), &Some("x".to_string()));
    let v: serde_json::Value = serde_json::from_str(&none).expect("JSON");
    assert_eq!(v["status"], "vacuous");
    assert_eq!(v["fills"], 0);
    assert_eq!(v["layers_filled"], 0);
    assert_eq!(v["layers_skipped"], 1);
}

#[test]
fn events_name_layers_in_order() {
    let p = plan(&["met2", "met1", "met2"], &["met9", "li1"]);
    let got: Vec<(Severity, String, String, Vec<String>)> = events(&p, true)
        .into_iter()
        .map(|e| (e.severity, e.message, e.code, e.objects))
        .collect();
    let layer = |s: Severity, m: &str, c: &str, l: &str| {
        (s, m.to_string(), c.to_string(), vec![format!("layer:{l}")])
    };
    let want = vec![
        layer(Severity::Info, "FIN-0003 Filling layer met1.", "FIN-LAYER", "met1"),
        layer(Severity::Info, "FIN-0004 Total fills: 1.", "FIN-LAYER-TOTAL", "met1"),
        layer(Severity::Info, "FIN-0003 Filling layer met2.", "FIN-LAYER", "met2"),
        layer(Severity::Info, "FIN-0004 Total fills: 2.", "FIN-LAYER-TOTAL", "met2"),
        layer(Severity::Warn, "FIN-0010 Skipping layer met9.", "FIN-LAYER-SKIPPED", "met9"),
        layer(Severity::Warn, "FIN-0010 Skipping layer li1.", "FIN-LAYER-SKIPPED", "li1"),
        (
            Severity::Info,
            "density fill applied: 3 shape(s) over 2 layer(s)".to_string(),
            "FIN-DONE".to_string(),
            vec![],
        ),
    ];
    assert_eq!(got, want);
    let dry = events(&plan(&[], &[]), false);
    assert_eq!(dry.len(), 1);
    assert_eq!(
        dry[0].message,
        "density fill planned: 0 shape(s) over 0 layer(s)"
    );
}
