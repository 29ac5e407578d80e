use vyges_fin::design::{lacking_layer, non_fill_by_layer, plan_design, LayerInfo, Metal};
use vyges_fin::geometry::Rect;
use vyges_fin::parse_rules;

const RULES: &str = r#"{"layers":{
  "met1":{"space_to_outline":0,"non-opc":
    {"width":[40],"height":[10],"space_to_fill":5,"space_to_non_fill":7}},
  "met2":{"space_to_outline":0,"non-opc":
    {"datatype":[1,2],"width":[40],"height":[10],"space_to_fill":5,"space_to_non_fill":7}},
  "spare":{"space_to_outline":0,"non-opc":
    {"width":[1],"height":[1],"space_to_fill":-1,"space_to_non_fill":0}}
}}"#;

fn info(name: &str, direction: &str, number: i64) -> LayerInfo {
    LayerInfo {
        name: name.to_string(),
        direction: direction.to_string(),
        number,
    }
}

fn metal(layer: i64, x0: i32, y0: i32, x1: i32, y1: i32) -> Metal {
    Metal {
        layer,
        rect: Rect::new(x0, y0, x1, y1),
    }
}

#[test]
fn metal_is_grouped_by_layer_without_empty_shapes() {
    let all = vec![
        metal(3, 0, 0, 1, 1),
        metal(-2, 5, 5, 6, 6),
        metal(3, 2, 2, 2, 9),
        metal(3, 4, 4, 9, 9),
        metal(8, 1, 1, 0, 0),
    ];
    let m = non_fill_by_layer(&all);
    assert_eq!(m.len(), 2);
    assert_eq!(
        m.get(&3).unwrap(),
        &vec![Rect::new(0, 0, 1, 1), Rect::new(4, 4, 9, 9)]
    );
    assert_eq!(m.get(&-2).unwrap(), &vec![Rect::new(5, 5, 6, 6)]);
}

#[test]
fn each_layer_is_filled_by_its_own_rules_and_metal() {
    let rules = parse_rules(RULES, 1).expect("parses");
    let layers = vec![
        info("li1", "HORIZONTAL", 1),
        info("met1", "HORIZONTAL", 2),
        info("met2", "VERTICAL", 3),
        info("met9", "NONE", 9),
    ];
    let wire = vec![metal(2, 50, 0, 60, 100), metal(3, 0, 45, 100, 100)];
    let plan = plan_design(Rect::new(0, 0, 100, 100), &wire, &layers, &rules);
    assert_eq!(plan.skipped, vec!["li1".to_string(), "met9".to_string()]);
    let on = |name: &str| -> Vec<(i32, i32, i32, i32, u32)> {
        plan.planned
            .iter()
            .filter(|(l, _)| l == name)
            .map(|(_, f)| (f.rect.x0, f.rect.y0, f.rect.x1, f.rect.y1, f.mask))
            .collect()
    };
    // Left of the wire 43 columns are free, right of it 33: too few for a shape of 40.
    let rows: Vec<(i32, i32, i32, i32, u32)> = (0..7)
        .map(|k| (0, k * 15, 40, k * 15 + 10, 0))
        .filter(|t| t.3 <= 100)
        .collect();
    assert_eq!(on("met1"), rows);
    // A vertical layer stands the shape up; the rows below 38 are too few for a shape of 40.
    assert_eq!(on("met2"), vec![]);
    let names: Vec<&str> = plan.planned.iter().map(|(l, _)| l.as_str()).collect();
    assert_eq!(names, vec!["met1"; 7]);
}

#[test]
fn a_vertical_layer_stands_its_shapes_up() {
    let rules = parse_rules(RULES, 1).expect("parses");
    let layers = vec![info("met2", "VERTICAL", 3)];
    let plan = plan_design(Rect::new(0, 0, 40, 40), &vec![], &layers, &rules);
    let got: Vec<(i32, i32, u32)> = plan
        .planned
        .iter()
        .map(|(_, f)| (f.rect.x0, f.rect.height(), f.mask))
        .collect();
    assert_eq!(got, vec![(0, 40, 1), (15, 40, 2), (30, 40, 1)]);
}

#[test]
fn a_grid_that_does_not_advance_holds_nothing() {
    let rules = parse_rules(RULES, 1).expect("parses");
    let layers = vec![info("spare", "VERTICAL", 4), info("met1", "HORIZONTAL", 2)];
    let plan = plan_design(Rect::new(0, 0, 40, 10), &vec![], &layers, &rules);
    let names: Vec<&str> = plan.planned.iter().map(|(l, _)| l.as_str()).collect();
    assert_eq!(names, vec!["met1"]);
    assert!(plan.skipped.is_empty());
}

#[test]
fn the_first_layer_that_the_technology_lacks_is_named() {
    let rules = parse_rules(RULES, 1).expect("parses");
    let none: Vec<LayerInfo> = vec![];
    assert_eq!(lacking_layer(&none, &rules), Some("met1".to_string()));
    let two = vec![info("met1", "HORIZONTAL", 2), info("spare", "VERTICAL", 4)];
    assert_eq!(lacking_layer(&two, &rules), Some("met2".to_string()));
    let all = vec![
        info("spare", "VERTICAL", 4),
        info("met2", "VERTICAL", 3),
        info("li1", "VERTICAL", 1),
        info("met1", "HORIZONTAL", 2),
    ];
    assert_eq!(lacking_layer(&all, &rules), None);
}
