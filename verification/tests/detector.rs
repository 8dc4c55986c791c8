use git_ignore::detector::{Detectors, DirEntry};

fn mk_entry(name: &str, extension: Option<&str>, is_file: bool, is_dir: bool) -> DirEntry {
    DirEntry::new(
        String::from(name),
        extension.map(String::from),
        is_file,
        is_dir,
    )
}

#[test]
fn detects_java_from_build_gradle() {
    let entry = mk_entry("build.gradle", Some("gradle"), true, false);
    let result = Detectors::default().detects(&Vec::from([entry]));
    assert!(result.contains(&"gradle".to_string()));
    assert!(result.contains(&"java".to_string()));
    assert!(result.len() == 2);
}

#[test]
fn detects_java_from_pom_xml() {
    let entry = mk_entry("pom.xml", Some("xml"), true, false);
    let result = Detectors::default().detects(&Vec::from([entry]));
    assert_eq!(result, vec!["java"])
}

#[test]
fn detects_node_from_package_json() {
    let entry = mk_entry("package.json", Some("json"), true, false);
    let result = Detectors::default().detects(&Vec::from([entry]));
    assert_eq!(result, vec!["node"])
}

#[test]
fn detects_python_from_requirements_txt() {
    let entry = mk_entry("requirements.txt", Some("txt"), true, false);
    let result = Detectors::default().detects(&Vec::from([entry]));
    assert_eq!(result, vec!["python"])
}

#[test]
fn detects_haskell_from_dot_cabal() {
    let entry = mk_entry("git-ignore.cabal", Some("cabal"), true, false);
    let result = Detectors::default().detects(&Vec::from([entry]));
    assert_eq!(result, vec!["haskell"])
}

#[test]
fn detects_haskell_from_stack_yaml() {
    let entry = mk_entry("stack.yaml", Some("yaml"), true, false);
    let result = Detectors::default().detects(&Vec::from([entry]));
    assert_eq!(result, vec!["haskell"])
}

#[test]
fn detects_php_from_compose_json() {
    let entry = mk_entry("composer.json", Some("json"), true, false);
    let result = Detectors::default().detects(&Vec::from([entry]));
    assert_eq!(result, vec!["composer"])
}

#[test]
fn detects_ruby_from_gemfile() {
    let entry = mk_entry("Gemfile", None, true, false);
    let result = Detectors::default().detects(&Vec::from([entry]));
    assert_eq!(result, vec!["ruby"])
}

#[test]
fn detects_rust_from_cargo_toml() {
    let entry = mk_entry("Cargo.toml", Some("toml"), true, false);
    let result = Detectors::default().detects(&Vec::from([entry]));
    assert_eq!(result, vec!["rust"])
}

#[test]
fn detects_scala_from_folder() {
    let entry = mk_entry(".metals", None, false, true);
    let result = Detectors::default().detects(&Vec::from([entry]));
    assert_eq!(result, vec!["scala"])
}

#[test]
fn cargo_toml_directory_is_not_a_rust_marker() {
    let entry = mk_entry("Cargo.toml", Some("toml"), false, true);
    let result = Detectors::default().detects(&Vec::from([entry]));
    assert_eq!(result, Vec::<String>::new());
}

#[test]
fn metals_file_is_not_a_scala_marker() {
    let entry = mk_entry(".metals", None, true, false);
    let result = Detectors::default().detects(&Vec::from([entry]));
    assert_eq!(result, Vec::<String>::new());
}

#[test]
fn detection_is_idempotent() {
    let entries = Vec::from([
        mk_entry("build.gradle", Some("gradle"), true, false),
        mk_entry("Cargo.toml", Some("toml"), true, false),
        mk_entry(".metals", None, false, true),
    ]);
    let detectors = Detectors::default();
    let first = detectors.detects(&entries);
    let second = detectors.detects(&entries);
    assert_eq!(first, second);
}

#[test]
fn detection_follows_rule_table_order() {
    let entries = Vec::from([
        mk_entry(".metals", None, false, true),
        mk_entry("Cargo.toml", Some("toml"), true, false),
    ]);
    let result = Detectors::default().detects(&entries);
    assert_eq!(result, vec!["rust", "scala"]);
}

#[test]
fn no_entries_detect_nothing() {
    let result = Detectors::default().detects(&Vec::new());
    assert_eq!(result, Vec::<String>::new());
}
