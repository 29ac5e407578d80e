use vyges_fin::descriptor::{describe, DESCRIBE, PIN_TOKEN};

/// A commit to build against.
const CRATE_PIN: &str = "0123456789abcdef0123456789abcdef01234567";

#[test]
fn the_descriptor_is_valid_json_and_states_what_was_validated() {
    let d: serde_json::Value = serde_json::from_str(DESCRIBE).expect("valid JSON");
    assert_eq!(d["name"], "fin");
    assert_eq!(d["produces"][0], "odb");
    let limits = d["provenance_limitations"].as_array().expect("an array");
    // A tool that does not state what it was validated against is not usable downstream.
    assert!(
        limits
            .iter()
            .any(|l| l.as_str().unwrap_or("").contains("Validated against")),
        "the descriptor must state what it was validated against"
    );
    assert!(
        limits
            .iter()
            .any(|l| l.as_str().unwrap_or("").contains("invariants")),
        "the descriptor must say what holds without a reference to compare against"
    );
    assert!(
        limits
            .iter()
            .any(|l| l.as_str().unwrap_or("").contains("not maximal")),
        "the descriptor must say fill density is not maximised"
    );
}

#[test]
fn the_descriptor_reports_the_pin_this_binary_was_built_against() {
    let d = describe(CRATE_PIN);
    assert!(
        !d.contains(PIN_TOKEN),
        "the pin placeholder survived into the output -- the substitution did not run"
    );
    let v: serde_json::Value =
        serde_json::from_str(&d).expect("the descriptor is still valid JSON once filled in");
    assert_eq!(
        v["openroad_pin"], CRATE_PIN,
        "the descriptor must report the pin this binary was actually built against"
    );
    assert_eq!(CRATE_PIN.len(), 40, "a full commit SHA, not an abbreviation");
}

/// The description carries no commit of its own.
#[test]
fn no_sha_is_hardcoded_anywhere_in_the_descriptor() {
    let raw = DESCRIBE;
    for tok in raw.split(|c: char| !c.is_ascii_hexdigit()) {
        assert!(
            tok.len() < 40,
            "{tok} looks like a hardcoded commit -- use the {PIN_TOKEN} placeholder"
        );
    }
}

#[test]
fn every_pin_is_filled_in() {
    let d = describe(CRATE_PIN);
    assert_eq!(d, DESCRIBE.replace(PIN_TOKEN, CRATE_PIN));
    assert_eq!(
        d.matches(CRATE_PIN).count(),
        DESCRIBE.matches(PIN_TOKEN).count()
    );
    assert_eq!(describe(PIN_TOKEN), DESCRIBE);
}
