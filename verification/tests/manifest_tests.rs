use kelpy_pm::deps::Dependencies;
use kelpy_pm::manifest::{parse, serialize, Manifest, PackageInfo};

#[test]
fn test_parse_basic_manifest() {
    let content = r#"
[package]
name = "my_project"
version = "1.0.0"
description = "A KelpyShark project"

[dependencies]
http = "1.0.0"
json = "0.2.1"
"#;
    let manifest = parse(content).unwrap();
    assert_eq!(manifest.package.name, "my_project");
    assert_eq!(manifest.package.version, "1.0.0");
    assert_eq!(manifest.package.description, "A KelpyShark project");
    assert_eq!(manifest.dependencies.len(), 2);
    assert_eq!(manifest.dependencies.get("http"), Some(&"1.0.0".to_string()));
    assert_eq!(manifest.dependencies.get("json"), Some(&"0.2.1".to_string()));
}

#[test]
fn test_parse_minimal_manifest() {
    let content = r#"
[package]
name = "hello"
"#;
    let manifest = parse(content).unwrap();
    assert_eq!(manifest.package.name, "hello");
    assert_eq!(manifest.package.version, "0.1.0"); // default
    assert!(manifest.dependencies.is_empty());
}

#[test]
fn test_parse_missing_name() {
    let content = "[package]\nversion = \"1.0.0\"";
    assert!(parse(content).is_err());
}

#[test]
fn test_parse_with_comments() {
    let content = r#"
# Project config
[package]
name = "test"
version = "0.1.0"
# This is a comment
description = ""

[dependencies]
# no deps yet
"#;
    let manifest = parse(content).unwrap();
    assert_eq!(manifest.package.name, "test");
}

#[test]
fn test_serialize_roundtrip() {
    let mut deps = Dependencies::new();
    deps.insert("http".to_string(), "1.0.0".to_string());

    let manifest = Manifest {
        package: PackageInfo {
            name: "test".to_string(),
            version: "1.0.0".to_string(),
            description: "A test".to_string(),
        },
        dependencies: deps,
    };

    let serialized = serialize(&manifest);
    let reparsed = parse(&serialized).unwrap();
    assert_eq!(reparsed.package.name, "test");
    assert_eq!(reparsed.package.version, "1.0.0");
    assert_eq!(reparsed.dependencies.get("http"), Some(&"1.0.0".to_string()));
}

#[test]
fn parse_reports_malformed_line_with_its_number() {
    let content = "[package]\nname = \"x\"\n   not a pair  \n";
    assert_eq!(
        parse(content).unwrap_err(),
        "kelpy.toml line 3: expected key = value, got: not a pair"
    );
}

#[test]
fn parse_counts_lines_past_nine() {
    let mut content = String::new();
    for _ in 0..11 {
        content.push('\n');
    }
    content.push_str("oops\n");
    assert_eq!(
        parse(&content).unwrap_err(),
        "kelpy.toml line 12: expected key = value, got: oops"
    );
}

#[test]
fn parse_reports_missing_name() {
    assert_eq!(
        parse("[package]\nversion = \"2.0.0\"\n").unwrap_err(),
        "kelpy.toml: missing [package] name"
    );
    assert_eq!(parse("").unwrap_err(), "kelpy.toml: missing [package] name");
}

#[test]
fn malformed_line_wins_over_missing_name() {
    assert_eq!(
        parse("junk").unwrap_err(),
        "kelpy.toml line 1: expected key = value, got: junk"
    );
}

#[test]
fn parse_handles_quotes_spacing_and_unknown_keys() {
    let content = "[ package ]\r\nname=pkg\r\nversion = \"\"\r\nlicense = \"MIT\"\r\n[tools]\r\nname = \"ignored\"\r\n[dependencies]\r\na = \"=1\"\r\nb = \"\r\nc = x = y\r\na = \"2\"\r\n";
    let m = parse(content).unwrap();
    assert_eq!(m.package.name, "pkg");
    // an empty version falls back to the default
    assert_eq!(m.package.version, "0.1.0");
    assert_eq!(m.package.description, "");
    assert_eq!(m.dependencies.len(), 3);
    // a later entry for the same name replaces the earlier one
    assert_eq!(m.dependencies.get("a"), Some(&"2".to_string()));
    // a lone quote is kept as it is
    assert_eq!(m.dependencies.get("b"), Some(&"\"".to_string()));
    // the key ends at the first '='
    assert_eq!(m.dependencies.get("c"), Some(&"x = y".to_string()));
    let names: Vec<&str> = m.dependencies.entries().iter().map(|e| e.0.as_str()).collect();
    assert_eq!(names, vec!["a", "b", "c"]);
}

#[test]
fn section_header_takes_precedence_over_pairs() {
    let m = parse("[package]\nname = \"n\"\n[a = b]\nname = \"other\"\n").unwrap();
    assert_eq!(m.package.name, "n");
}

#[test]
fn serialize_writes_the_exact_text() {
    let mut deps = Dependencies::new();
    deps.insert("http".to_string(), "1.0.0".to_string());
    deps.insert("json".to_string(), "0.2.1".to_string());
    let manifest = Manifest {
        package: PackageInfo {
            name: "app".to_string(),
            version: "0.3.0".to_string(),
            description: "An app".to_string(),
        },
        dependencies: deps,
    };
    assert_eq!(
        serialize(&manifest),
        "[package]\nname = \"app\"\nversion = \"0.3.0\"\ndescription = \"An app\"\n\n[dependencies]\nhttp = \"1.0.0\"\njson = \"0.2.1\"\n"
    );
}

#[test]
fn roundtrip_keeps_every_field() {
    let mut deps = Dependencies::new();
    deps.insert("x".to_string(), "1".to_string());
    deps.insert("y-z".to_string(), " spaced \"quoted\" ".to_string());
    let manifest = Manifest {
        package: PackageInfo {
            name: "n = m".to_string(),
            version: "9.9.9".to_string(),
            description: "  padded  ".to_string(),
        },
        dependencies: deps,
    };
    let back = parse(&serialize(&manifest)).unwrap();
    assert_eq!(back.package, manifest.package);
    assert_eq!(back.dependencies.entries(), manifest.dependencies.entries());
}

#[test]
fn clone_keeps_the_manifest() {
    let m = parse("[package]\nname = \"a\"\n[dependencies]\nb = \"1\"\n").unwrap();
    let c = m.clone();
    assert_eq!(c.package, m.package);
    assert_eq!(c.dependencies.entries(), m.dependencies.entries());
}
