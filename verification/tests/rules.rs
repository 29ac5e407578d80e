use vyges_fin::parse_rules;

const RULES: &str = r#"{
  "layers": {
    "met1": {
      "layer": 36, "name": "met1", "dir": "H", "datatype": 0,
      "space_to_outline": 0.07,
      "non-opc": {
        "datatype": 0,
        "width":  [2.00, 1.00, 0.58, 0.3],
        "height": [2.00, 1.00, 0.58, 0.3],
        "space_to_fill": 0.3,
        "space_to_non_fill": 3
      }
    },
    "grp": {
      "name": "met2", "names": ["met2", "met3"],
      "space_to_outline": 0.07,
      "non-opc": {
        "datatype": [0, 1], "width": [1.0], "height": [1.0],
        "space_to_fill": 0.2, "space_to_non_fill": 1
      },
      "opc": {
        "datatype": 0, "halo": 0.5, "width": [0.5], "height": [0.5],
        "space_to_fill": 0.1, "space_to_non_fill": 2, "space_line_end": 0.4
      }
    }
  }
}"#;

#[test]
fn the_rules_file_becomes_database_units() {
    let r = parse_rules(RULES, 1000).expect("parses");
    let met1 = r.layers.get("met1").expect("met1");
    assert_eq!(met1.space_to_outline, 70, "0.07um at 1000 DBU/um");
    assert_eq!(met1.non_opc.space_to_fill, 300);
    assert_eq!(met1.non_opc.space_to_non_fill, 3000);
    assert_eq!(
        met1.non_opc.shapes,
        vec![(2000, 2000), (1000, 1000), (580, 580), (300, 300)],
        "largest first, in the order the file gives"
    );
    assert!(!met1.has_opc);
    assert_eq!(met1.num_masks, 0, "a bare datatype is a single-mask layer");
}

#[test]
fn a_names_list_applies_one_rule_to_several_layers() {
    let r = parse_rules(RULES, 1000).expect("parses");
    assert!(r.layers.contains_key("met2") && r.layers.contains_key("met3"));
    assert_eq!(r.layers.get("met2").unwrap(), r.layers.get("met3").unwrap());
    // ...and the group key itself is not a layer.
    assert!(!r.layers.contains_key("grp"));
}

#[test]
fn opc_rules_are_read_only_where_they_are_stated() {
    let r = parse_rules(RULES, 1000).expect("parses");
    let met2 = r.layers.get("met2").expect("met2");
    assert!(met2.has_opc);
    assert_eq!(met2.opc_halo, 500);
    assert_eq!(
        met2.opc.space_line_end, 400,
        "OPC may state a line-end spacing"
    );
    assert_eq!(met2.non_opc.space_line_end, 0, "non-OPC never does");
    assert_eq!(
        met2.num_masks, 2,
        "a datatype LIST names one datatype per mask"
    );
}

#[test]
fn a_malformed_rules_file_is_refused_with_a_reason() {
    assert!(parse_rules("not json", 1000)
        .unwrap_err()
        .contains("valid JSON"));
    assert!(parse_rules("{}", 1000).unwrap_err().contains("`layers`"));
    let missing =
        r#"{"layers":{"m":{"space_to_outline":1,"non-opc":{"width":[1],"height":[1]}}}}"#;
    assert!(parse_rules(missing, 1000)
        .unwrap_err()
        .contains("space_to_fill"));
}

/// One layer, `m`, whose parts can be replaced.
fn layer(extra: &str, non_opc: &str) -> String {
    format!(r#"{{"layers":{{"m":{{"space_to_outline":1,{extra}"non-opc":{non_opc}}}}}}}"#)
}

const PLAIN: &str =
    r#"{"width":[1],"height":[1],"space_to_fill":1,"space_to_non_fill":2,"datatype":[4,5,6]}"#;

fn error(json: &str) -> String {
    parse_rules(json, 1000).unwrap_err()
}

#[test]
fn each_fault_of_a_rules_file_has_its_message() {
    assert!(error("{").starts_with("rules file is not valid JSON: "));
    for no_layers in ["[]", "{}", r#"{"layers":[]}"#, r#"{"layers":null}"#, "3"] {
        assert_eq!(error(no_layers), "rules file has no `layers` object");
    }
    assert_eq!(
        error(r#"{"layers":{"m":{"space_to_outline":1}}}"#),
        "layer `m` has no `non-opc` section"
    );
    assert_eq!(
        error(r#"{"layers":{"m":7}}"#),
        "layer `m` has no `non-opc` section"
    );
    assert_eq!(
        error(&format!(r#"{{"layers":{{"m":{{"non-opc":{PLAIN}}}}}}}"#)),
        "`space_to_outline` is missing or not a number"
    );
    assert_eq!(
        error(&layer("", r#"{"height":[1]}"#)),
        "`width` is missing or not a list"
    );
    assert_eq!(
        error(&layer("", r#"{"width":1,"height":[1]}"#)),
        "`width` is missing or not a list"
    );
    assert_eq!(
        error(&layer("", r#"{"width":[1,"2"],"height":[1]}"#)),
        "`width` holds a non-number"
    );
    assert_eq!(
        error(&layer("", r#"{"width":[1],"height":[null]}"#)),
        "`height` holds a non-number"
    );
    assert_eq!(
        error(&layer("", r#"{"width":[1],"height":[1],"space_to_fill":"1"}"#)),
        "`space_to_fill` is missing or not a number"
    );
    assert_eq!(
        error(&layer("", r#"{"width":[1],"height":[1],"space_to_fill":1}"#)),
        "`space_to_non_fill` is missing or not a number"
    );
}

#[test]
fn opc_rules_are_checked_before_non_opc_rules() {
    assert_eq!(
        error(&layer(r#""opc":{"width":[1]},"#, "{}")),
        "`height` is missing or not a list"
    );
    assert_eq!(
        error(&layer(r#""opc":null,"#, PLAIN)),
        "`width` is missing or not a list"
    );
}

#[test]
fn optional_opc_values_default_to_zero() {
    let opc = r#""opc":{"width":[1],"height":[1],"space_to_fill":1,"space_to_non_fill":2},"#;
    let r = parse_rules(&layer(opc, PLAIN), 10).expect("parses");
    let m = r.layers.get("m").expect("m");
    assert!(m.has_opc);
    assert_eq!((m.opc_halo, m.opc.space_line_end), (0, 0));
    assert_eq!((m.opc.space_to_fill, m.opc.space_to_non_fill), (10, 20));
    assert_eq!(m.num_masks, 3);
    assert_eq!(m.space_to_outline, 10);
}

#[test]
fn a_mismatched_pair_of_lists_is_the_shorter() {
    let sizes =
        r#"{"width":[5,4,3],"height":[2,1],"space_to_fill":0.1,"space_to_non_fill":0.1}"#;
    let r = parse_rules(&layer("", sizes), 10).expect("parses");
    let m = r.layers.get("m").expect("m");
    assert_eq!(m.non_opc.shapes, vec![(50, 20), (40, 10)]);
    assert_eq!(m.num_masks, 0);
}

#[test]
fn a_name_replaces_the_key_and_a_list_of_names_both() {
    let named = parse_rules(&layer(r#""name":"n","#, PLAIN), 1).expect("parses");
    assert!(named.layers.contains_key("n") && !named.layers.contains_key("m"));
    let odd = parse_rules(&layer(r#""name":3,"#, PLAIN), 1).expect("parses");
    assert!(odd.layers.contains_key("m"));
    let list = parse_rules(&layer(r#""name":"n","names":["a",1,"b"],"#, PLAIN), 1).expect("parses");
    assert_eq!(list.layers.len(), 2);
    assert!(list.layers.contains_key("a") && list.layers.contains_key("b"));
    let none = parse_rules(&layer(r#""names":[],"#, PLAIN), 1).expect("parses");
    assert_eq!(none.layers.len(), 0);
    let no_list = parse_rules(&layer(r#""names":"a","#, PLAIN), 1).expect("parses");
    assert!(no_list.layers.contains_key("m"));
}

#[test]
fn the_last_entry_that_applies_to_a_layer_rules_it() {
    let two = format!(
        r#"{{"layers":{{"a":{{"name":"x","space_to_outline":1,"non-opc":{PLAIN}}},
           "b":{{"names":["x","y"],"space_to_outline":2,"non-opc":{PLAIN}}}}}}}"#
    );
    let r = parse_rules(&two, 1).expect("parses");
    assert_eq!(r.layers.len(), 2);
    assert_eq!(r.layers.get("x").unwrap().space_to_outline, 2);
    assert_eq!(r.layers.get("y").unwrap().space_to_outline, 2);
    assert_eq!(r.clone(), r);
}

#[test]
fn rules_by_default_are_none() {
    let r = vyges_fin::Rules::default();
    assert_eq!(r.layers.len(), 0);
    assert_eq!(r, parse_rules(r#"{"layers":{}}"#, 1000).expect("parses"));
}
