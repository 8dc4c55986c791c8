use git_ignore::data::{IgnoreData, Language};
use git_ignore::detector::DirEntry;
use git_ignore::ignore::Core;
use git_ignore::StoreError;

const HEADER: &str = "\n\n### Created by https://www.gitignore.io";

fn lang(key: &str, contents: &str) -> Language {
    Language {
        key: String::from(key),
        name: String::from(key),
        file_name: format!("{}.gitignore", key),
        contents: String::from(contents),
    }
}

fn alias(name: &str, targets: &[&str]) -> (String, Vec<String>) {
    (
        String::from(name),
        targets.iter().map(|t| String::from(*t)).collect(),
    )
}

fn user(name: &str, contents: &str) -> (String, String) {
    (String::from(name), String::from(contents))
}

fn names(ns: &[&str]) -> Vec<String> {
    ns.iter().map(|n| String::from(*n)).collect()
}

#[test]
fn output_preserves_request_order() {
    let data = IgnoreData::new(
        vec![lang("a", "[A]"), lang("b", "[B]")],
        Vec::new(),
        Vec::new(),
    );
    let core = Core::new();
    let (out_ba, _) = core.get_templates(&data, &names(&["b", "a"]));
    assert_eq!(out_ba, format!("{}[B][A]", HEADER));
    let (out_ab, _) = core.get_templates(&data, &names(&["a", "b"]));
    assert_eq!(out_ab, format!("{}[A][B]", HEADER));
}

#[test]
fn user_template_shadows_remote_template() {
    let data = IgnoreData::new(
        vec![lang("rust", "remote rust\n")],
        Vec::new(),
        vec![user("rust", "my own rust\n")],
    );
    let core = Core::new();
    let (out, missing) = core.get_templates(&data, &names(&["rust"]));
    assert_eq!(out, format!("{}my own rust\n", HEADER));
    assert!(missing.is_empty());
}

#[test]
fn alias_expansion_stops_at_alias_targets() {
    let data = IgnoreData::new(
        vec![lang("z", "[Z]")],
        vec![alias("x", &["y"]), alias("y", &["z"])],
        Vec::new(),
    );
    let core = Core::new();
    let (out, missing) = core.get_templates(&data, &names(&["x"]));
    assert_eq!(out, "");
    assert_eq!(missing, vec!["y"]);
}

#[test]
fn unknown_name_is_silent() {
    let data = IgnoreData::new(vec![lang("rust", "[R]")], Vec::new(), Vec::new());
    let core = Core::new();
    let (out, missing) = core.get_templates(&data, &names(&["no-such-template"]));
    assert_eq!(out, "");
    assert!(missing.is_empty());
}

#[test]
fn missing_alias_target_is_reported_and_skipped() {
    let data = IgnoreData::new(
        vec![lang("rust", "[R]"), lang("node", "[N]")],
        vec![alias("combo", &["rust", "lost", "node"])],
        Vec::new(),
    );
    let core = Core::new();
    let (out, missing) = core.get_templates(&data, &names(&["combo"]));
    assert_eq!(out, format!("{}[R][N]", HEADER));
    assert_eq!(missing, vec!["lost"]);
}

#[test]
fn alias_targets_prefer_user_templates() {
    let data = IgnoreData::new(
        vec![lang("rust", "[REMOTE]")],
        vec![alias("combo", &["rust"])],
        vec![user("rust", "[USER]")],
    );
    let core = Core::new();
    // the alias itself is shadowed for the name "rust", but as a target
    // "rust" resolves through the user template first
    let (out, missing) = core.get_templates(&data, &names(&["combo"]));
    assert_eq!(out, format!("{}[USER]", HEADER));
    assert!(missing.is_empty());
}

#[test]
fn simple_resolution_reads_remote_templates_only() {
    let data = IgnoreData::new(
        vec![lang("rust", "[REMOTE]")],
        vec![alias("node", &["rust"])],
        vec![user("rust", "[USER]")],
    );
    let core = Core::new();
    let out = core.get_templates_simple(&data, &names(&["rust", "node"]));
    assert_eq!(out, format!("{}[REMOTE]", HEADER));
}

#[test]
fn empty_resolution_has_no_header() {
    let data = IgnoreData::new(Vec::new(), Vec::new(), Vec::new());
    let core = Core::new();
    let (out, missing) = core.get_templates(&data, &names(&["rust"]));
    assert_eq!(out, "");
    assert!(missing.is_empty());
    assert_eq!(core.get_templates_simple(&data, &names(&["rust"])), "");
}

#[test]
fn first_cache_record_wins_on_duplicate_keys() {
    let data = IgnoreData::new(
        vec![lang("rust", "[FIRST]"), lang("rust", "[SECOND]")],
        Vec::new(),
        Vec::new(),
    );
    assert_eq!(data.get_template("rust"), Some(String::from("[FIRST]")));
}

#[test]
fn lookups_answer_per_namespace() {
    let data = IgnoreData::new(
        vec![lang("rust", "[R]")],
        vec![alias("mix", &["rust"])],
        vec![user("mine", "[M]")],
    );
    assert_eq!(data.get_template("rust"), Some(String::from("[R]")));
    assert_eq!(data.get_template("mine"), None);
    assert_eq!(data.get_alias("mix"), Some(vec![String::from("rust")]));
    assert_eq!(data.get_alias("rust"), None);
    assert_eq!(data.get_user_template("mine"), Some(String::from("[M]")));
    assert_eq!(data.get_user_template("rust"), None);
}

#[test]
fn listing_sorts_names() {
    let data = IgnoreData::new(
        vec![lang("rust", "[R]"), lang("node", "[N]")],
        vec![alias("all", &["rust", "node"])],
        vec![user("zeta", "[Z]")],
    );
    let core = Core::new();
    let out = core.list(&data, &Vec::new());
    assert_eq!(out, "  all\n  node\n  rust\n  zeta\n");
}

#[test]
fn listing_filters_by_substring() {
    let data = IgnoreData::new(
        vec![lang("rust", "[R]"), lang("node", "[N]"), lang("ruby", "[B]")],
        Vec::new(),
        Vec::new(),
    );
    let core = Core::new();
    let out = core.list(&data, &names(&["ru"]));
    assert_eq!(out, "  ruby\n  rust\n");
}

#[test]
fn listing_repeats_a_name_once_per_matching_request() {
    let data = IgnoreData::new(vec![lang("rust", "[R]")], Vec::new(), Vec::new());
    let core = Core::new();
    let out = core.list(&data, &names(&["ru", "rust"]));
    assert_eq!(out, "  rust\n  rust\n");
}

#[test]
fn listing_shows_shared_names_once_per_namespace() {
    let data = IgnoreData::new(
        vec![lang("rust", "[REMOTE]")],
        Vec::new(),
        vec![user("rust", "[USER]")],
    );
    let core = Core::new();
    let out = core.list(&data, &Vec::new());
    assert_eq!(out, "  rust\n  rust\n");
}

#[test]
fn store_keys_cover_all_namespaces() {
    let data = IgnoreData::new(
        vec![lang("rust", "[R]")],
        vec![alias("all", &["rust"])],
        vec![user("mine", "[M]")],
    );
    let keys = data.keys();
    assert_eq!(keys.len(), 3);
    let inners: Vec<&str> = keys.iter().map(|k| k.inner()).collect();
    assert_eq!(inners, vec!["rust", "all", "mine"]);
}

#[test]
fn type_name_substring_search() {
    let data = IgnoreData::new(vec![lang("rust", "[R]")], Vec::new(), Vec::new());
    let keys = data.keys();
    assert!(keys[0].contains("us"));
    assert!(keys[0].contains(""));
    assert!(!keys[0].contains("usty"));
}

#[test]
fn autodetect_feeds_resolution() {
    let data = IgnoreData::new(vec![lang("rust", "[R]")], Vec::new(), Vec::new());
    let core = Core::new();
    let entries = vec![DirEntry::new(
        String::from("Cargo.toml"),
        Some(String::from("toml")),
        true,
        false,
    )];
    let detected = core.autodetect_templates(&entries);
    assert_eq!(detected, vec!["rust"]);
    let (out, _) = core.get_templates(&data, &detected);
    assert_eq!(out, format!("{}[R]", HEADER));
}

#[test]
fn store_error_messages() {
    assert_eq!(
        StoreError::CacheUnavailable.message(),
        "cache is missing or unreadable, run an update"
    );
    assert_eq!(
        StoreError::UserConfigCorrupt.message(),
        "user configuration could not be parsed"
    );
}
