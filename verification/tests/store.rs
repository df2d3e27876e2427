use letur_project::store::{
    read_override, read_sites, settings_file, sites_file, store_file, with_override, with_sites,
};

#[test]
fn the_three_files_sit_side_by_side() {
    assert_eq!(store_file("/support"), "/support/projects.json");
    assert_eq!(settings_file("/support/"), "/support/settings.json");
    assert_eq!(sites_file(""), "sites.json");
}

#[test]
fn the_store_remembers_one_fact_per_root_and_forgives_a_bad_file() {
    assert_eq!(read_override(None, "/root/a"), None, "a store with no file");
    assert_eq!(read_override(Some("{ not json"), "/root/a"), None, "a truncated store");

    let text = with_override(None, "/support/projects.json", "/root/a", "book.md").unwrap();
    assert_eq!(read_override(Some(&text), "/root/a").as_deref(), Some("book.md"));
    assert_eq!(read_override(Some(&text), "/root/b"), None);

    let again = with_override(Some(&text), "/support/projects.json", "/root/b", "other.md").unwrap();
    assert_eq!(read_override(Some(&again), "/root/a").as_deref(), Some("book.md"));
    assert_eq!(read_override(Some(&again), "/root/b").as_deref(), Some("other.md"));

    let replaced = with_override(Some(&again), "/support/projects.json", "/root/a", "new.md").unwrap();
    assert_eq!(read_override(Some(&replaced), "/root/a").as_deref(), Some("new.md"));

    let forgiven = with_override(Some("{ not json"), "/support/projects.json", "/root/a", "book.md").unwrap();
    assert_eq!(forgiven, text, "a malformed store is written over as nothing remembered");
}

#[test]
fn the_sites_round_trip_per_root_and_a_bad_file_allows_nothing() {
    let sites = "/support/sites.json";
    let root = "/fixtures/panel";
    let other = "/fixtures/panel-pair";
    let set = |named: &[&str]| -> Vec<String> {
        let held: std::collections::BTreeSet<String> = named.iter().map(|site| site.to_string()).collect();
        held.into_iter().collect()
    };

    assert!(read_sites(None, root).is_empty(), "no file at all");

    let text = with_sites(None, sites, root, &set(&["b.example", "a.example"])).unwrap();
    let text = with_sites(Some(&text), sites, other, &set(&["c.example"])).unwrap();
    assert_eq!(read_sites(Some(&text), root), set(&["a.example", "b.example"]));
    assert_eq!(read_sites(Some(&text), other), set(&["c.example"]));

    // Sorted in the file, under the root's key.
    let held: std::collections::BTreeMap<String, Vec<String>> = serde_json::from_str(&text).unwrap();
    assert_eq!(held.get(root), Some(&vec!["a.example".to_string(), "b.example".to_string()]));

    // A second write of the same root replaces rather than accumulates.
    let text = with_sites(Some(&text), sites, root, &set(&["a.example"])).unwrap();
    assert_eq!(read_sites(Some(&text), root), set(&["a.example"]));
    assert_eq!(read_sites(Some(&text), other), set(&["c.example"]));

    for malformed in ["{\"/some/root\": ", "not json at all", "{\"/r\": \"a.example\"}"] {
        assert!(read_sites(Some(malformed), root).is_empty(), "{malformed:?} must read as nothing allowed");
    }
}
