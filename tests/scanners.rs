use cargo_sweep::scan::{
    after_structured_scan, line_scan, parse_machete_output, parse_udeps_output, structured_scan,
    ScanAction, UnusedDependency,
};

fn dep(name: &str) -> UnusedDependency {
    UnusedDependency { name: name.to_string(), location: "[dependencies]".to_string() }
}

#[test]
fn test_parse_machete_output() {
    let output = "unused dependency: `some-crate`\nunused dependency: `another-crate`\n";
    let deps = parse_machete_output(output).unwrap();
    assert_eq!(deps.len(), 2);
    assert_eq!(deps[0].name, "some-crate");
    assert_eq!(deps[1].name, "another-crate");
}

#[test]
fn test_parse_machete_output_empty() {
    let output = "No unused dependencies found.\n";
    let deps = parse_machete_output(output).unwrap();
    assert_eq!(deps.len(), 0);
}

#[test]
fn machete_bare_names_and_locations() {
    let output = "Analyzing...\r\n  `serde`  \n`two words`\n``\nfoo unused dependency: `x` and `y`\n`tail`";
    let deps = parse_machete_output(output).unwrap();
    let names: Vec<&str> = deps.iter().map(|d| d.name.as_str()).collect();
    assert_eq!(names, vec!["serde", "x", "tail"]);
    assert!(deps.iter().all(|d| d.location == "[dependencies]"));
}

#[test]
fn machete_bare_quoted_line_misfires() {
    // any line that is one backtick-quoted word is taken for a dependency
    let deps = parse_machete_output("note: see `Cargo.toml`\n`Cargo.toml`\n").unwrap();
    assert_eq!(deps.len(), 1);
    assert_eq!(deps[0].name, "Cargo.toml");
}

#[test]
fn machete_marker_without_closing_backtick() {
    let deps = parse_machete_output("unused dependency: `broken\n").unwrap();
    assert!(deps.is_empty());
}

#[test]
fn udeps_json_entries() {
    let json = r#"{"unused_deps":[{"name":"a","location":"[dev-dependencies]"},{"name":"b"},{"name":"c","location":"[dependencies]"},{"location":"x"}]}"#;
    let deps = parse_udeps_output(json);
    assert_eq!(deps.len(), 2);
    assert_eq!(deps[0].name, "a");
    assert_eq!(deps[0].location, "[dev-dependencies]");
    assert_eq!(deps[1].name, "c");
    assert_eq!(deps[1].location, "[dependencies]");
}

#[test]
fn udeps_malformed_or_empty() {
    assert!(parse_udeps_output("").is_empty());
    assert!(parse_udeps_output("not json").is_empty());
    assert!(parse_udeps_output(r#"{"other": 1}"#).is_empty());
    assert!(parse_udeps_output(r#"{"unused_deps": 5}"#).is_empty());
}

#[test]
fn structured_scanner_wins_when_it_finds_something() {
    let stdout = r#"{"unused_deps":[{"name":"a","location":"[dependencies]"}]}"#;
    match structured_scan(stdout, "") {
        ScanAction::Report(v) => assert_eq!(v[0].name, "a"),
        ScanAction::RunLineScanner => panic!("line scanner must not run"),
    }
    match structured_scan("garbage", stdout) {
        ScanAction::Report(v) => assert_eq!(v.len(), 1),
        ScanAction::RunLineScanner => panic!("line scanner must not run"),
    }
    assert!(matches!(structured_scan("", ""), ScanAction::RunLineScanner));
    assert!(matches!(
        after_structured_scan(vec![dep("x")], vec![dep("y")]),
        ScanAction::Report(v) if v[0].name == "x"
    ));
    assert!(matches!(after_structured_scan(vec![], vec![]), ScanAction::RunLineScanner));
}

#[test]
fn line_scan_prefers_stdout() {
    let a = "unused dependency: `a`\n";
    let b = "unused dependency: `b`\n";
    assert_eq!(line_scan(a, b)[0].name, "a");
    assert_eq!(line_scan("", b)[0].name, "b");
    assert!(line_scan("", "").is_empty());
}

#[test]
fn machete_trims_unicode_whitespace() {
    let deps = parse_machete_output("\u{a0}`x`\u{3000}\n\u{2003}unused dependency: `y`\n").unwrap();
    let names: Vec<&str> = deps.iter().map(|d| d.name.as_str()).collect();
    assert_eq!(names, vec!["x", "y"]);
}

#[test]
fn machete_drops_empty_names() {
    let deps = parse_machete_output("unused dependency: ``\nunused dependency: `z`\n").unwrap();
    assert_eq!(deps.len(), 1);
    assert_eq!(deps[0].name, "z");
}

#[test]
fn machete_bare_token_rejects_any_blank() {
    assert!(parse_machete_output("`a\tb`\n").unwrap().is_empty());
    assert!(parse_machete_output("`a\u{a0}b`\n").unwrap().is_empty());
}

#[test]
fn structured_scan_same_text_same_answer() {
    let stdout = r#"{"unused_deps":[{"name":"q","location":"[build-dependencies]"}]}"#;
    for _ in 0..2 {
        match structured_scan(stdout, "ignored") {
            ScanAction::Report(v) => {
                assert_eq!(v.len(), 1);
                assert_eq!(v[0].name, "q");
                assert_eq!(v[0].location, "[build-dependencies]");
            }
            ScanAction::RunLineScanner => panic!("line scanner must not run"),
        }
    }
}
