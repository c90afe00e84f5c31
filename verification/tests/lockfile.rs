use gpm_config::config_file::ConfigFile;
use gpm_config::lockfile::{record, LockError};
use gpm_config::package::Package;

fn package(name: &str, version: &str, integrity: &str, installed: bool) -> Package {
    let mut p = Package::new(name.to_string(), version.to_string());
    p.integrity = integrity.to_string();
    p.installed = installed;
    p
}

fn test_and_gdcli(gdcli_installed: bool) -> ConfigFile {
    let mut test = package("@bendn/test", "2.0.10", "sha512-hyPGx", true);
    test.dependencies
        .push(package("@bendn/gdcli", "1.2.5", "sha512-/YOAd", gdcli_installed));
    ConfigFile {
        packages: vec![test],
    }
}

#[test]
fn lock_writes_a_record_for_every_installed_package() {
    let mut cfg = test_and_gdcli(true);
    let text = cfg.lock(|_| None).unwrap();
    assert_eq!(
        text,
        "[\n  {\n    \"name\": \"@bendn/test\",\n    \"version\": \"2.0.10\",\n    \"integrity\": \"sha512-hyPGx\"\n  },\n  {\n    \"name\": \"@bendn/gdcli\",\n    \"version\": \"1.2.5\",\n    \"integrity\": \"sha512-/YOAd\"\n  }\n]"
    );
}

#[test]
fn lock_leaves_out_what_is_not_installed() {
    let mut cfg = test_and_gdcli(false);
    let text = cfg.lock(|_| None).unwrap();
    assert_eq!(
        text,
        "[\n  {\n    \"name\": \"@bendn/test\",\n    \"version\": \"2.0.10\",\n    \"integrity\": \"sha512-hyPGx\"\n  }\n]"
    );
}

#[test]
fn lock_of_nothing_installed() {
    let mut cfg = ConfigFile {
        packages: vec![package("a", "1", "", false)],
    };
    assert_eq!(cfg.lock(|_| None).unwrap(), "[]");
    let mut cfg = ConfigFile { packages: vec![] };
    assert_eq!(cfg.lock(|_| None).unwrap(), "[]");
}

#[test]
fn lock_asks_for_an_integrity_that_is_missing() {
    let mut cfg = ConfigFile {
        packages: vec![
            package("a", "1", "", true),
            package("b", "2", "sha512-own", true),
            package("c", "3", "", false),
        ],
    };
    let text = cfg
        .lock(|p| {
            assert_eq!(p.name, "a");
            Some(format!("sha512-of-{}", p.to_string()))
        })
        .unwrap();
    let value: serde_json::Value = serde_json::from_str(text.as_str()).unwrap();
    let rows = value.as_array().unwrap();
    assert_eq!(rows.len(), 2);
    assert_eq!(rows[0]["name"], "a");
    assert_eq!(rows[0]["version"], "1");
    assert_eq!(rows[0]["integrity"], "sha512-of-a@1");
    assert_eq!(rows[1]["name"], "b");
    assert_eq!(rows[1]["integrity"], "sha512-own");
}

#[test]
fn lock_does_not_change_the_config_file() {
    let mut cfg = ConfigFile {
        packages: vec![package("a", "1", "", true)],
    };
    cfg.lock(|_| Some("sha512-x".to_string())).unwrap();
    assert_eq!(cfg.packages.len(), 1);
    assert_eq!(cfg.packages[0].integrity, "");
}

#[test]
fn lock_fails_as_a_whole() {
    let mut cfg = ConfigFile {
        packages: vec![
            package("a", "1", "sha512-a", true),
            package("b", "2", "", true),
            package("c", "3", "", true),
        ],
    };
    match cfg.lock(|_| None) {
        Err(LockError::Integrity(who)) => assert_eq!(who, "b@2"),
        other => panic!("{:?}", other),
    }
    match cfg.lock(|p| {
        if p.name == "c" {
            None
        } else {
            Some("sha512-b".to_string())
        }
    }) {
        Err(LockError::Integrity(who)) => assert_eq!(who, "c@3"),
        other => panic!("{:?}", other),
    }
}

#[test]
fn lock_writes_texts_as_json_strings() {
    let mut cfg = ConfigFile {
        packages: vec![package("a\"b", "1\\2", "x\ny", true)],
    };
    let text = cfg.lock(|_| None).unwrap();
    assert_eq!(
        text,
        "[\n  {\n    \"name\": \"a\\\"b\",\n    \"version\": \"1\\\\2\",\n    \"integrity\": \"x\\ny\"\n  }\n]"
    );
}

#[test]
fn record_has_three_fields_in_order() {
    let p = package("a", "1", "ignored", true);
    assert_eq!(
        record(&p, "sha512-x".to_string()),
        vec![
            ("name".to_string(), "a".to_string()),
            ("version".to_string(), "1".to_string()),
            ("integrity".to_string(), "sha512-x".to_string()),
        ]
    );
}
