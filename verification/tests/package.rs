use gpm_config::config_file::ConfigFile;
use gpm_config::manifest::ConfigWrapper;
use gpm_config::order::{in_order, same_text, sort_packages, text_in_order};
use gpm_config::package::Package;

fn package(name: &str, version: &str) -> Package {
    Package::new(name.to_string(), version.to_string())
}

#[test]
fn new_package_is_a_leaf() {
    let p = package("@bendn/test", "2.0.10");
    assert_eq!(p.name, "@bendn/test");
    assert_eq!(p.version, "2.0.10");
    assert!(p.dependencies.is_empty());
    assert!(p.integrity.is_empty());
    assert!(!p.installed);
    assert!(!p.is_installed());
    assert!(!p.has_deps());
}

#[test]
fn display_form() {
    assert_eq!(package("@bendn/test", "2.0.10").to_string(), "@bendn/test@2.0.10");
    assert_eq!(package("", "").to_string(), "@");
}

#[test]
fn predicates_follow_the_fields() {
    let mut p = package("a", "1");
    p.installed = true;
    p.dependencies.push(package("b", "2"));
    assert!(p.is_installed());
    assert!(p.has_deps());
}

#[test]
fn clone_is_deep() {
    let mut p = package("a", "1");
    p.integrity = "sha512-a".to_string();
    p.installed = true;
    let mut below = package("b", "2");
    below.dependencies.push(package("c", "3"));
    p.dependencies.push(below);
    let mut q = p.clone();
    assert_eq!(q, p);
    assert_eq!(q.name, "a");
    assert_eq!(q.version, "1");
    assert_eq!(q.integrity, "sha512-a");
    assert!(q.installed);
    assert_eq!(q.dependencies.len(), 1);
    assert_eq!(q.dependencies[0].to_string(), "b@2");
    assert_eq!(q.dependencies[0].dependencies[0].to_string(), "c@3");
    q.dependencies[0].dependencies[0].name.push('!');
    assert_eq!(p.dependencies[0].dependencies[0].name, "c");
    assert_ne!(q, p);
}

#[test]
fn texts_are_ordered_by_their_bytes() {
    assert!(text_in_order("", ""));
    assert!(text_in_order("", "a"));
    assert!(!text_in_order("a", ""));
    assert!(text_in_order("a", "a"));
    assert!(text_in_order("a", "b"));
    assert!(!text_in_order("b", "a"));
    assert!(text_in_order("ab", "abc"));
    assert!(!text_in_order("abc", "ab"));
    assert!(text_in_order("B", "a"));
    assert!(text_in_order("10", "9"));
    assert!(text_in_order("z", "\u{e9}"));
    assert!(text_in_order("\u{e9}", "\u{20ac}"));
    assert!(!text_in_order("\u{20ac}", "\u{e9}"));
    for (a, b) in [("", "a"), ("ab", "abc"), ("B", "a"), ("z", "\u{e9}"), ("x", "x")] {
        assert_eq!(text_in_order(a, b), a <= b);
        assert_eq!(text_in_order(b, a), b <= a);
    }
}

#[test]
fn same_text_is_equality() {
    assert!(same_text("", ""));
    assert!(same_text("packages", "packages"));
    assert!(!same_text("packages", "package"));
    assert!(!same_text("a", "b"));
}

#[test]
fn packages_are_ordered_by_name_then_version() {
    assert!(in_order(&package("a", "2"), &package("b", "1")));
    assert!(!in_order(&package("b", "1"), &package("a", "2")));
    assert!(in_order(&package("a", "1"), &package("a", "2")));
    assert!(!in_order(&package("a", "2"), &package("a", "1")));
    assert!(in_order(&package("a", "1"), &package("a", "1")));
    assert!(in_order(&package("a", "9"), &package("ab", "1")));
}

#[test]
fn sort_orders_and_keeps_every_package() {
    let sorted = sort_packages(vec![
        package("b", "1"),
        package("a", "2"),
        package("c", "0"),
        package("a", "1"),
        package("b", "1"),
    ]);
    let shown: Vec<String> = sorted.iter().map(|p| p.to_string()).collect();
    assert_eq!(shown, vec!["a@1", "a@2", "b@1", "b@1", "c@0"]);
    assert!(sort_packages(vec![]).is_empty());
}

#[test]
fn sort_keeps_equal_keys_in_their_order() {
    let mut first = package("a", "1");
    first.integrity = "first".to_string();
    let mut second = package("a", "1");
    second.integrity = "second".to_string();
    let sorted = sort_packages(vec![package("b", "1"), first, second]);
    assert_eq!(sorted[0].integrity, "first");
    assert_eq!(sorted[1].integrity, "second");
    assert_eq!(sorted[2].name, "b");
}

#[test]
fn config_file_of_a_mapping_is_sorted() {
    let cfg = ConfigFile::from(ConfigWrapper {
        packages: vec![
            ("zeta".to_string(), "1".to_string()),
            ("Alpha".to_string(), "3".to_string()),
            ("alpha".to_string(), "2".to_string()),
        ],
    });
    let shown: Vec<String> = cfg.packages.iter().map(|p| p.to_string()).collect();
    assert_eq!(shown, vec!["Alpha@3", "alpha@2", "zeta@1"]);
    let empty = ConfigFile::from(ConfigWrapper { packages: vec![] });
    assert!(empty.packages.is_empty());
}
