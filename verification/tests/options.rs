use vyges_fin::options::{command, parse_opts, Command};

#[test]
fn the_rules_argument_is_required_and_options_are_checked() {
    assert!(parse_opts(&[]).is_err(), "a .odb is required");
    let ok = ["d.odb", "--rules", "r.json"].map(String::from);
    assert_eq!(parse_opts(&ok).unwrap().get("rules"), Some("r.json"));
    let dangling = ["d.odb", "--rules"].map(String::from);
    assert!(parse_opts(&dangling).unwrap_err().contains("--rules"));
    let bad: Vec<String> = vec!["-x".to_string()];
    assert!(parse_opts(&bad).unwrap_err().contains("unknown"));
}

fn args(a: &[&str]) -> Vec<String> {
    a.iter().map(|s| s.to_string()).collect()
}

#[test]
fn each_fault_of_the_arguments_has_its_message() {
    let error = |a: &[&str]| parse_opts(&args(a)).unwrap_err();
    assert_eq!(error(&[]), "a path to a .odb is required");
    assert_eq!(error(&["--json"]), "a path to a .odb is required");
    assert_eq!(error(&["d", "--area"]), "--area needs a value");
    assert_eq!(error(&["d", "-o"]), "-o needs a value");
    assert_eq!(error(&["-q", "d"]), "unknown option `-q`");
    assert_eq!(error(&["d", "-"]), "unknown option `-`");
}

#[test]
fn options_take_the_argument_behind_them() {
    let o = parse_opts(&args(&[
        "a.odb", "--json", "--rules", "r", "--rules", "s", "b.odb", "-o", "--json", "--out-odb", "-",
    ]))
    .unwrap();
    assert_eq!(o.odb, "b.odb");
    assert_eq!(o.get("rules"), Some("r"));
    assert_eq!(o.get("o"), Some("--json"));
    assert_eq!(o.get("out-odb"), Some("-"));
    assert_eq!(o.get("--rules"), None);
    assert_eq!(o.get("json"), None);
    assert!(!o.dry_run);
    assert_eq!(o.keys.len(), 4);
}

#[test]
fn a_dry_run_is_asked_for_anywhere() {
    assert!(parse_opts(&args(&["--dry-run", "d"])).unwrap().dry_run);
    let as_value = parse_opts(&args(&["d", "--rules", "--dry-run"])).unwrap();
    assert!(as_value.dry_run);
    assert_eq!(as_value.get("rules"), Some("--dry-run"));
}

#[test]
fn commands_are_told_apart() {
    let of = |a: &[&str]| command(&args(a));
    assert!(matches!(of(&["density-fill", "x", "-V"]), Command::Version));
    assert!(matches!(of(&["--describe", "--version"]), Command::Version));
    assert!(matches!(of(&["--help", "--describe"]), Command::Describe));
    assert!(matches!(of(&["density-fill", "-h"]), Command::Help));
    assert!(matches!(of(&["nonsense", "--help"]), Command::Help));
    assert!(matches!(of(&[]), Command::NoCommand));
    match of(&["density-fill", "d.odb", "--json"]) {
        Command::DensityFill(rest) => assert_eq!(rest, args(&["d.odb", "--json"])),
        other => panic!("{other:?}"),
    }
    match of(&["fill", "d.odb"]) {
        Command::Unknown(name) => assert_eq!(name, "fill"),
        other => panic!("{other:?}"),
    }
    assert_eq!(of(&["-V"]).exit_status(), Some(0));
    assert_eq!(of(&["--describe"]).exit_status(), Some(0));
    assert_eq!(of(&["--help"]).exit_status(), Some(0));
    assert_eq!(of(&[]).exit_status(), Some(2));
    assert_eq!(of(&["fill"]).exit_status(), Some(2));
    assert_eq!(of(&["density-fill"]).exit_status(), None);
}
