use vyges_fin::area::{area_rect, area_words};
use vyges_fin::design::{LayerInfo, Metal};
use vyges_fin::geometry::Rect;
use vyges_fin::options::USAGE;
use vyges_fin::run::{Action, Reply, Run};
use vyges_fin::Fill;

const RULES: &str = r#"{"layers":{"met1":{"space_to_outline":0,"non-opc":
  {"width":[0.04],"height":[0.01],"space_to_fill":0.005,"space_to_non_fill":0.007}}}}"#;

/// A database that lives in memory, and what was done with it.
struct World {
    rules: Result<String, String>,
    open: Result<i32, String>,
    core: Rect,
    fills: Vec<(String, Fill)>,
    fail_at: &'static str,
    log: Vec<String>,
}

fn world() -> World {
    World {
        rules: Ok(RULES.to_string()),
        open: Ok(1000),
        core: Rect::new(0, 0, 100, 30),
        fills: Vec::new(),
        fail_at: "",
        log: Vec::new(),
    }
}

impl World {
    fn did(&mut self, what: &'static str) -> Reply {
        if self.fail_at == what {
            Reply::Failed("it broke".to_string())
        } else {
            self.log.push(what.to_string());
            Reply::Done
        }
    }

    /// Runs to the end: the exit status and the message.
    fn run(&mut self, args: &[&str]) -> (u8, Option<String>) {
        let args: Vec<String> = args.iter().map(|a| a.to_string()).collect();
        let mut run = Run::start(&args);
        loop {
            let reply = match run.action() {
                Action::ReadRules(p) => {
                    self.log.push(format!("rules {p}"));
                    match self.rules.clone() {
                        Ok(t) => Reply::Text(t),
                        Err(e) => Reply::Failed(e),
                    }
                }
                Action::OpenDatabase(p) => {
                    self.log.push(format!("open {p}"));
                    match self.open.clone() {
                        Ok(d) => Reply::Scale(d),
                        Err(e) => Reply::Failed(e),
                    }
                }
                Action::ReadNumbers(words) => Reply::Numbers(
                    words
                        .iter()
                        .filter_map(|w| w.parse::<f64>().ok())
                        .map(f64::to_bits)
                        .collect(),
                ),
                Action::ReadCore => Reply::Core(self.core),
                Action::ClearFills => {
                    let r = self.did("clear");
                    if matches!(r, Reply::Done) {
                        self.fills.clear();
                    }
                    r
                }
                Action::ReadDesign => Reply::Design(
                    vec![Metal {
                        layer: 4,
                        rect: Rect::new(50, 0, 60, 30),
                    }],
                    vec![
                        LayerInfo {
                            name: "li1".to_string(),
                            direction: "VERTICAL".to_string(),
                            number: 3,
                        },
                        LayerInfo {
                            name: "met1".to_string(),
                            direction: "HORIZONTAL".to_string(),
                            number: 4,
                        },
                    ],
                ),
                Action::CreateFill(layer, fill) => {
                    let r = self.did("create");
                    if matches!(r, Reply::Done) {
                        self.fills.push((layer, fill));
                    }
                    r
                }
                Action::Announce(events) => {
                    self.log.push(format!("events {}", events.len()));
                    Reply::Done
                }
                Action::WriteDatabase(p) => {
                    self.log.push(format!("odb {p}"));
                    self.did("write")
                }
                Action::WriteDef(p) => {
                    self.log.push(format!("def {p}"));
                    self.did("write def")
                }
                Action::WriteReport(p, t) => {
                    self.log.push(format!("report {p} {}", t.ends_with("}\n")));
                    self.did("report")
                }
                Action::PrintReport(t) => {
                    self.log.push(t);
                    self.did("print")
                }
                Action::Exit(status, message) => return (status, message),
            };
            run = run.step(reply);
        }
    }
}

fn report_of(status: &str, fills: usize, layers: usize, written: &str) -> String {
    format!("{{\n  \"tool\": \"vyges-fin\",\n  \"status\": \"{status}\",\n  \"fills\": {fills},\n  \"layers_filled\": {layers},\n  \"layers_skipped\": 1,\n  \"odb_written\": {written}\n}}\n")
}

#[test]
fn a_run_clears_creates_announces_writes_and_reports() {
    let mut w = world();
    assert_eq!(w.run(&["d.odb", "--rules", "r.json"]), (0, None));
    let report = report_of("filled", 2, 1, "\"d.odb\"");
    assert_eq!(
        w.log,
        vec![
            "rules r.json",
            "open d.odb",
            "clear",
            "create",
            "create",
            "events 4",
            "odb d.odb",
            "write",
            report.as_str(),
            "print",
        ]
    );
    // Left of the wire, 7 clear of it, two rows 5 apart.
    let rects: Vec<Rect> = w.fills.iter().map(|(_, f)| f.rect).collect();
    assert_eq!(
        rects,
        vec![Rect::new(0, 0, 40, 10), Rect::new(0, 15, 40, 25)]
    );
}

#[test]
fn running_again_leaves_the_same_fills() {
    let mut w = world();
    w.run(&["d.odb", "--rules", "r.json"]);
    let once = w.fills.clone();
    w.run(&["d.odb", "--rules", "r.json"]);
    assert_eq!(w.fills, once);
    assert_eq!(once.len(), 2);
}

#[test]
fn a_dry_run_changes_and_writes_nothing() {
    let mut w = world();
    w.run(&["d.odb", "--rules", "r.json"]);
    let before = w.fills.clone();
    w.log.clear();
    let args = ["d.odb", "--rules", "r", "--dry-run", "--out-def", "x.def", "-o", "f"];
    assert_eq!(w.run(&args), (0, None));
    assert_eq!(
        w.log,
        vec!["rules r", "open d.odb", "events 4", "report f true", "report"]
    );
    assert_eq!(w.fills, before);
    w.log.clear();
    w.run(&["d.odb", "--rules", "r", "--dry-run"]);
    assert_eq!(w.log[3], report_of("planned", 2, 1, "null"));
}

#[test]
fn outputs_go_where_they_are_asked_to() {
    let mut w = world();
    let args = [
        "d.odb", "--rules", "r", "--out-odb", "o.odb", "--out-def", "o.def", "-o", "o.json",
    ];
    assert_eq!(w.run(&args), (0, None));
    assert_eq!(
        &w.log[5..],
        ["events 4", "odb o.odb", "write", "def o.def", "write def", "report o.json true", "report"]
    );
}

#[test]
fn a_run_that_places_nothing_is_vacuous() {
    let mut w = world();
    let args = ["d.odb", "--rules", "r", "--area", "0 0 0.03 0.03"];
    assert_eq!(w.run(&args), (0, None));
    assert!(w.log.contains(&report_of("vacuous", 0, 0, "\"d.odb\"")));
    assert!(w.log.contains(&"clear".to_string()));
}

#[test]
fn an_area_is_given_in_microns() {
    let mut w = world();
    let args = ["d.odb", "--rules", "r", "--area", " 0.001,0.0014 0.0406, ,0.02"];
    assert_eq!(w.run(&args), (0, None));
    assert_eq!(w.fills.len(), 1);
    assert_eq!(w.fills[0].1.rect, Rect::new(1, 1, 41, 11));
}

#[test]
fn an_empty_area_is_refused() {
    let mut w = world();
    w.core = Rect::new(5, 5, 5, 90);
    let empty = "the fill area is empty; nothing to fill".to_string();
    assert_eq!(w.run(&["d", "--rules", "r"]), (1, Some(empty.clone())));
    let args = ["d", "--rules", "r", "--area", "1 1 0 2"];
    assert_eq!(w.run(&args), (1, Some(empty)));
    assert!(!w.log.contains(&"clear".to_string()));
}

#[test]
fn each_failure_ends_the_run_with_its_message() {
    let args = ["d.odb", "--rules", "r.json"];
    let end = |w: &mut World, a: &[&str]| {
        let (status, message) = w.run(a);
        assert_eq!(status, 2);
        message.expect("a message")
    };
    let mut w = world();
    assert_eq!(
        end(&mut w, &["-x"]),
        format!("unknown option `-x`\n\n{USAGE}")
    );
    assert_eq!(
        end(&mut w, &["d.odb"]),
        format!("`density-fill` needs --rules FILE\n\n{USAGE}")
    );
    w.rules = Err("gone".to_string());
    assert_eq!(end(&mut w, &args), "cannot read r.json: gone");
    w.rules = Ok("{}".to_string());
    assert_eq!(
        end(&mut w, &args),
        "r.json: rules file has no `layers` object"
    );
    w.open = Ok(0);
    assert_eq!(end(&mut w, &args), "no DBU scale");
    w.open = Err("locked".to_string());
    assert_eq!(end(&mut w, &args), "cannot read d.odb: locked");

    let mut w = world();
    assert_eq!(
        end(&mut w, &["d.odb", "--rules", "r", "--area", "1 2 x 3"]),
        "--area wants 'lx ly ux uy' in microns, got `1 2 x 3`"
    );
    w.fail_at = "clear";
    assert_eq!(
        end(&mut w, &args),
        "cannot clear existing fill: it broke"
    );
    w.fail_at = "create";
    assert_eq!(
        end(&mut w, &args),
        "cannot create fill on met1: it broke"
    );
    w.fail_at = "write";
    assert_eq!(end(&mut w, &args), "cannot write d.odb: it broke");
    w.fail_at = "write def";
    assert_eq!(
        end(&mut w, &["d", "--rules", "r", "--out-def", "o.def"]),
        "cannot write o.def: it broke"
    );
    w.fail_at = "report";
    assert_eq!(
        end(&mut w, &["d", "--rules", "r", "-o", "o.json"]),
        "cannot write o.json: it broke"
    );
}

#[test]
fn rules_with_a_negative_gap_are_planned() {
    let mut w = world();
    w.rules = Ok(RULES.replace("0.007", "-1"));
    assert_eq!(w.run(&["d.odb", "--rules", "r"]), (0, None));
    let corners: Vec<(i32, i32)> = w.fills.iter().map(|(_, f)| (f.rect.x0, f.rect.y0)).collect();
    assert_eq!(corners, vec![(0, 0), (0, 15), (60, 0), (60, 15)]);
}

#[test]
fn a_rule_for_a_layer_that_the_technology_lacks_is_reported() {
    let section = r#"{"width":[1],"height":[1],"space_to_fill":1,"space_to_non_fill":1}"#;
    let entry = |names: &str| {
        format!(r#"{{"names":[{names}],"space_to_outline":0,"non-opc":{section}}}"#)
    };
    let mut w = world();
    w.rules = Ok(format!(
        r#"{{"layers":{{"a":{},"b":{}}}}}"#,
        entry(r#""nope","met1""#),
        entry(r#""met7""#)
    ));
    for dry in [false, true] {
        let mut args = vec!["d.odb", "--rules", "r"];
        if dry {
            args.push("--dry-run");
        }
        w.log.clear();
        // The first in the order of the names.
        let message = "the rules name layer met7, which the technology lacks".to_string();
        assert_eq!(w.run(&args), (2, Some(message)));
        assert!(!w.log.iter().any(|l| l == "create" || l.starts_with("odb ")));
    }
    w.rules = Ok(RULES.replace("met1", "nope").replace("0.007", "-1"));
    let message = "the rules name layer nope, which the technology lacks".to_string();
    assert_eq!(w.run(&["d.odb", "--rules", "r"]), (2, Some(message)));
}

#[test]
fn a_dry_run_plans_what_the_run_itself_creates() {
    let mut w = world();
    w.run(&["d.odb", "--rules", "r", "--dry-run", "--area", "0 0 0.05 0.03"]);
    let planned = w.log.iter().find(|l| l.starts_with('{')).unwrap().clone();
    assert!(planned.contains("\"fills\": 2,"));
    w.run(&["d.odb", "--rules", "r", "--area", "0 0 0.05 0.03"]);
    assert_eq!(w.fills.len(), 2);
}

#[test]
fn words_stand_between_spaces_and_commas() {
    assert_eq!(area_words(" 1,2  ,3 4\t5,"), vec!["1", "2", "3", "4\t5"]);
    assert!(area_words("").is_empty() && area_words(" , ").is_empty());
}

#[test]
fn an_area_is_four_numbers() {
    let bits = |v: &[f64]| -> Vec<u64> { v.iter().map(|x| x.to_bits()).collect() };
    assert_eq!(
        area_rect(&bits(&[0.0005, -0.0005, 1.25, 2.0004]), 1000),
        Some(Rect::new(1, -1, 1250, 2000))
    );
    assert_eq!(area_rect(&bits(&[1.0, 2.0, 3.0]), 1000), None);
    assert_eq!(area_rect(&bits(&[1.0, 2.0, 3.0, 4.0, 5.0]), 1000), None);
}
