use vyges_fin::json::{parse_json, Json};

fn text(j: &Json) -> String {
    match j {
        Json::Null => "null".to_string(),
        Json::Bool(b) => format!("{b}"),
        Json::Number(Some(n)) => format!("{}", f64::from_bits(*n)),
        Json::Number(None) => "?".to_string(),
        Json::Text(s) => format!("'{s}'"),
        Json::List(v) => {
            let items: Vec<String> = v.iter().map(text).collect();
            format!("[{}]", items.join(" "))
        }
        Json::Object(v) => {
            let items: Vec<String> = v.iter().map(|(k, x)| format!("{k}:{}", text(x))).collect();
            format!("{{{}}}", items.join(" "))
        }
    }
}

#[test]
fn a_document_is_read_level_by_level() {
    let j = parse_json(r#" {"b": [1, -2.5, 1e3, true, null, "x\ny"], "a": {"c": {}}, "d": []} "#)
        .expect("a document");
    assert_eq!(
        text(&j),
        "{a:{c:{}} b:[1 -2.5 1000 true null 'x\ny'] d:[]}"
    );
}

#[test]
fn a_repeated_key_has_its_last_value() {
    let j = parse_json(r#"{"k": 1, "k": 2}"#).expect("a document");
    assert_eq!(text(&j), "{k:2}");
}

#[test]
fn large_integers_become_the_nearest_number() {
    let j = parse_json("[9007199254740993, 18446744073709551615, -9223372036854775808, 0.1]")
        .expect("a document");
    assert_eq!(
        text(&j),
        "[9007199254740992 18446744073709552000 -9223372036854776000 0.1]"
    );
}

#[test]
fn what_is_no_document_has_the_message_of_its_error() {
    for bad in ["", "{", "[1,]", "nul", "{\"a\":1} x", "'a'", "01"] {
        let want = serde_json::from_str::<serde_json::Value>(bad)
            .unwrap_err()
            .to_string();
        assert_eq!(parse_json(bad).unwrap_err(), want);
    }
}
