use gpm_config::config_file::ConfigFile;
use gpm_config::package::Package;

fn node(name: &str, dependencies: Vec<Package>) -> Package {
    let mut p = Package::new(name.to_string(), "1.0.0".to_string());
    p.dependencies = dependencies;
    p
}

/// a [ a1 [ a11 ], a2 ], b, c [ c1 ]
fn forest() -> ConfigFile {
    ConfigFile {
        packages: vec![
            node(
                "a",
                vec![node("a1", vec![node("a11", vec![])]), node("a2", vec![])],
            ),
            node("b", vec![]),
            node("c", vec![node("c1", vec![])]),
        ],
    }
}

fn names(pkgs: &[Package]) -> Vec<String> {
    pkgs.iter().map(|p| p.name.clone()).collect()
}

#[test]
fn for_each_visits_in_pre_order() {
    let mut cfg = forest();
    let mut seen: Vec<String> = Vec::new();
    cfg.for_each(|p| seen.push(p.name.clone()));
    assert_eq!(seen, vec!["a", "a1", "a11", "a2", "b", "c", "c1"]);
}

#[test]
fn for_each_visits_a_node_before_what_is_below_it() {
    let mut cfg = forest();
    let mut seen: Vec<(String, Vec<bool>)> = Vec::new();
    cfg.for_each(|p| {
        seen.push((
            p.name.clone(),
            p.dependencies.iter().map(|d| d.installed).collect(),
        ));
        p.installed = true;
    });
    assert_eq!(seen[0], ("a".to_string(), vec![false, false]));
    assert_eq!(seen[1], ("a1".to_string(), vec![false]));
    assert_eq!(seen[5], ("c".to_string(), vec![false]));
}

#[test]
fn for_each_changes_every_node_once() {
    let mut cfg = forest();
    cfg.for_each(|p| {
        p.version.push('+');
        p.installed = true;
    });
    let all = cfg.collect();
    assert_eq!(all.len(), 7);
    for p in all.iter() {
        assert_eq!(p.version, "1.0.0+");
        assert!(p.installed);
    }
    assert_eq!(names(&all), vec!["a", "a1", "a11", "a2", "b", "c", "c1"]);
}

#[test]
fn for_each_keeps_the_shape() {
    let mut cfg = forest();
    cfg.for_each(|p| p.integrity = format!("sha512-{}", p.name));
    assert_eq!(names(&cfg.packages), vec!["a", "b", "c"]);
    assert_eq!(names(&cfg.packages[0].dependencies), vec!["a1", "a2"]);
    assert_eq!(
        names(&cfg.packages[0].dependencies[0].dependencies),
        vec!["a11"]
    );
    assert!(cfg.packages[1].dependencies.is_empty());
    assert_eq!(names(&cfg.packages[2].dependencies), vec!["c1"]);
    assert_eq!(
        cfg.packages[0].dependencies[0].dependencies[0].integrity,
        "sha512-a11"
    );
}

#[test]
fn for_each_on_nothing_calls_nothing() {
    let mut cfg = ConfigFile { packages: vec![] };
    let mut calls: usize = 0;
    cfg.for_each(|_| calls += 1);
    assert_eq!(calls, 0);
}

#[test]
fn the_walk_takes_a_slice_of_packages() {
    let mut cfg = forest();
    let mut seen: Vec<String> = Vec::new();
    ConfigFile::_for_each(&mut cfg.packages[..1], |p| seen.push(p.name.clone()));
    assert_eq!(seen, vec!["a", "a1", "a11", "a2"]);
}

#[test]
fn collect_is_the_pre_order() {
    let mut cfg = forest();
    let all = cfg.collect();
    assert_eq!(names(&all), vec!["a", "a1", "a11", "a2", "b", "c", "c1"]);
    assert_eq!(names(&all[0].dependencies), vec!["a1", "a2"]);
    assert_eq!(names(&all[1].dependencies), vec!["a11"]);
    assert!(all[2].dependencies.is_empty());
}

#[test]
fn collect_counts_as_many_nodes_as_for_each_calls() {
    let mut cfg = forest();
    let mut calls: usize = 0;
    cfg.for_each(|_| calls += 1);
    assert_eq!(calls, 7);
    assert_eq!(cfg.collect().len(), calls);
}

#[test]
fn collect_copies() {
    let mut cfg = forest();
    let mut all = cfg.collect();
    assert_eq!(cfg, forest());
    assert_eq!(all[0], cfg.packages[0]);
    all[0].name.push('!');
    all[0].dependencies.clear();
    assert_eq!(cfg.packages[0].name, "a");
    assert_eq!(cfg.packages[0].dependencies.len(), 2);
    assert_eq!(cfg.collect().len(), 7);
}

#[test]
fn equal_packages_in_two_branches_are_both_visited() {
    let mut cfg = ConfigFile {
        packages: vec![
            node("a", vec![node("shared", vec![])]),
            node("b", vec![node("shared", vec![])]),
        ],
    };
    assert_eq!(names(&cfg.collect()), vec!["a", "shared", "b", "shared"]);
}

#[test]
fn a_node_is_handed_over_as_the_nodes_above_it_left_it() {
    let mut cfg = forest();
    let mut seen: Vec<(String, String)> = Vec::new();
    cfg.for_each(|p| {
        seen.push((p.name.clone(), p.version.clone()));
        for d in p.dependencies.iter_mut() {
            d.version = format!("below {}", p.name);
        }
    });
    let wanted: Vec<(String, String)> = [
        ("a", "1.0.0"),
        ("a1", "below a"),
        ("a11", "below a1"),
        ("a2", "below a"),
        ("b", "1.0.0"),
        ("c", "1.0.0"),
        ("c1", "below c"),
    ]
    .iter()
    .map(|(n, v)| (n.to_string(), v.to_string()))
    .collect();
    assert_eq!(seen, wanted);
    let versions: Vec<String> = cfg.collect().iter().map(|p| p.version.clone()).collect();
    assert_eq!(
        versions,
        vec!["1.0.0", "below a", "below a1", "below a", "1.0.0", "1.0.0", "below c"]
    );
}
