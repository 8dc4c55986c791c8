use git_ignore::data::IgnoreData;
use git_ignore::ignore::Core;
use git_ignore::user_data::UserData;

fn targets(ts: &[&str]) -> Vec<String> {
    ts.iter().map(|t| String::from(*t)).collect()
}

#[test]
fn adding_an_alias_binds_it() {
    let mut ud = UserData::new();
    ud.add_alias(String::from("web"), targets(&["node", "sass"]));
    assert_eq!(ud.aliases.len(), 1);
    assert_eq!(ud.aliases[0].0, "web");
    assert_eq!(ud.aliases[0].1, targets(&["node", "sass"]));
}

#[test]
fn adding_an_alias_again_replaces_its_targets() {
    let mut ud = UserData::new();
    ud.add_alias(String::from("web"), targets(&["node"]));
    ud.add_alias(String::from("web"), targets(&["node", "deno"]));
    assert_eq!(ud.aliases.len(), 1);
    assert_eq!(ud.aliases[0].1, targets(&["node", "deno"]));
}

#[test]
fn removing_an_alias_tells_whether_it_existed() {
    let mut ud = UserData::new();
    ud.add_alias(String::from("web"), targets(&["node"]));
    assert!(ud.remove_alias("web"));
    assert!(ud.aliases.is_empty());
    assert!(!ud.remove_alias("web"));
}

#[test]
fn template_bindings_behave_like_alias_bindings() {
    let mut ud = UserData::new();
    ud.add_template(String::from("mine"), String::from("mine.txt"));
    ud.add_template(String::from("mine"), String::from("other.txt"));
    assert_eq!(ud.templates.len(), 1);
    assert_eq!(ud.templates[0].1, "other.txt");
    assert!(ud.remove_template("mine"));
    assert!(!ud.remove_template("mine"));
    assert!(ud.templates.is_empty());
}

#[test]
fn alias_and_template_maps_are_independent() {
    let mut ud = UserData::new();
    ud.add_alias(String::from("same"), targets(&["node"]));
    ud.add_template(String::from("same"), String::from("same.txt"));
    assert_eq!(ud.aliases.len(), 1);
    assert_eq!(ud.templates.len(), 1);
    assert!(ud.remove_alias("same"));
    assert_eq!(ud.templates.len(), 1);
}

#[test]
fn round_trip_through_pair_lists_reproduces_the_maps() {
    let mut ud = UserData::new();
    ud.add_alias(String::from("web"), targets(&["node", "sass"]));
    ud.add_alias(String::from("jvm"), targets(&["java", "gradle"]));
    ud.add_template(String::from("mine"), String::from("mine.txt"));

    let reread = UserData::from_pairs(ud.aliases.clone(), ud.templates.clone());
    assert_eq!(reread.aliases, ud.aliases);
    assert_eq!(reread.templates, ud.templates);
}

#[test]
fn reloading_reordered_pairs_keeps_the_mapping() {
    let mut ud = UserData::new();
    ud.add_alias(String::from("web"), targets(&["node"]));
    ud.add_alias(String::from("jvm"), targets(&["java"]));

    let mut reordered = ud.aliases.clone();
    reordered.reverse();
    let reread = UserData::from_pairs(reordered, ud.templates.clone());
    assert_eq!(reread.aliases.len(), 2);
    assert_eq!(reread.aliases[0].0, "jvm");
    assert_eq!(reread.aliases[1].0, "web");
    assert_eq!(reread.aliases[0].1, targets(&["java"]));
    assert_eq!(reread.aliases[1].1, targets(&["node"]));
}

#[test]
fn loading_keeps_the_first_binding_of_a_duplicated_key() {
    let pairs = vec![
        (String::from("web"), targets(&["node"])),
        (String::from("web"), targets(&["deno"])),
    ];
    let ud = UserData::from_pairs(pairs, Vec::new());
    assert_eq!(ud.aliases.len(), 1);
    assert_eq!(ud.aliases[0].1, targets(&["node"]));
}

#[test]
fn user_config_feeds_the_store() {
    let mut ud = UserData::new();
    ud.add_alias(String::from("combo"), targets(&["rust"]));
    let data = IgnoreData::new(
        vec![git_ignore::data::Language {
            key: String::from("rust"),
            name: String::from("rust"),
            file_name: String::from("rust.gitignore"),
            contents: String::from("[R]"),
        }],
        ud.aliases.clone(),
        Vec::new(),
    );
    let core = Core::new();
    let (out, missing) = core.get_templates(&data, &vec![String::from("combo")]);
    assert_eq!(out, "\n\n### Created by https://www.gitignore.io[R]");
    assert!(missing.is_empty());
}
