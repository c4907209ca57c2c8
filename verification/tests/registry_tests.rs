use kelpy_pm::manifest::parse;
use kelpy_pm::publisher::{no_manifest_error, publish, skip_entry};
use kelpy_pm::registry::{join_path, manifest_path, skip_dir_in_copy, Registry};
use kelpy_pm::versions::sort_versions;

#[test]
fn package_path_nests_name_and_version() {
    let registry = Registry::new("/tmp/reg".to_string());
    assert_eq!(registry.package_path("http", "1.0.0"), "/tmp/reg/http/1.0.0");
    let trailing = Registry::new("/tmp/reg/".to_string());
    assert_eq!(trailing.package_path("http", "1.0.0"), "/tmp/reg/http/1.0.0");
}

#[test]
fn default_registry_lives_under_home() {
    assert_eq!(Registry::default("/home/u").root, "/home/u/.kelpyshark/registry");
    assert_eq!(Registry::default("").root, ".kelpyshark/registry");
}

#[test]
fn join_path_follows_push_rules() {
    assert_eq!(join_path("a", "b"), "a/b");
    assert_eq!(join_path("a/", "b"), "a/b");
    assert_eq!(join_path("", "b"), "b");
    assert_eq!(join_path("a", "/abs"), "/abs");
    assert_eq!(join_path("a", ""), "a/");
    assert_eq!(manifest_path("proj"), "proj/kelpy.toml");
}

#[test]
fn registry_publish_decides_once_per_version() {
    let registry = Registry::new("/r".to_string());
    let m = parse("[package]\nname = \"my_lib\"\nversion = \"1.0.0\"\n").unwrap();
    assert_eq!(registry.publish(&m, false).unwrap(), "Published my_lib@1.0.0 to registry");
    assert_eq!(
        registry.publish(&m, true).unwrap_err(),
        "Package 'my_lib@1.0.0' already exists in registry"
    );
}

#[test]
fn publisher_publish_gives_destination_and_message() {
    let registry = Registry::new("/r".to_string());
    let m = parse("[package]\nname = \"my_lib\"\nversion = \"1.0.0\"\ndescription = \"\"\n").unwrap();
    let (dest, msg) = publish(&registry, &m, false).unwrap();
    assert_eq!(dest, "/r/my_lib/1.0.0");
    assert!(msg.contains("Published my_lib@1.0.0"));
    assert_eq!(msg, "Published my_lib@1.0.0 to local registry at '/r/my_lib/1.0.0'");
    let err = publish(&registry, &m, true).unwrap_err();
    assert!(err.contains("already published"));
    assert!(no_manifest_error("/p/empty").contains("kelpy.toml"));
    assert_eq!(no_manifest_error("/p/empty"), "No kelpy.toml found in '/p/empty'");
}

#[test]
fn copy_filters() {
    assert!(skip_entry("target") && skip_entry("libs") && skip_entry(".git"));
    assert!(!skip_entry("src"));
    assert!(skip_dir_in_copy("target") && skip_dir_in_copy(".git"));
    assert!(!skip_dir_in_copy("libs"));
}

#[test]
fn versions_sort_like_strings() {
    let input: Vec<String> = ["2.0.0", "1.10.0", "1.2.0", "1.2.0", "é", "z", "", "1"]
        .iter()
        .map(|s| s.to_string())
        .collect();
    let sorted = sort_versions(&input);
    let mut expected = input.clone();
    expected.sort();
    assert_eq!(sorted, expected);
    assert_eq!(&sorted[1..4], &["1".to_string(), "1.10.0".to_string(), "1.2.0".to_string()]);
}
