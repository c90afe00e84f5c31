use gpm_config::config_file::ConfigFile;
use gpm_config::package::Package;

const TEST_INTEGRITY: &str = "sha512-hyPGxDG8poa2ekmWr1BeTCUa7YaZYfhsN7jcLJ3q2cQVlowcTnzqmz4iV3t21QFyabE5R+rV+y6d5dAItrJeDw==";
const GDCLI_INTEGRITY: &str = "sha512-/YOAd1+K4JlKvPTmpX8B7VWxGtFrxKq4R0A6u5qOaaVPK6uGsl4dGZaIHpxuqcurEcwPEOabkoShXKZaOXB0lw==";

fn entries(text: &str) -> Vec<(String, String, String)> {
    let value: serde_json::Value = serde_json::from_str(text).unwrap();
    value
        .as_array()
        .unwrap()
        .iter()
        .map(|entry| {
            let object = entry.as_object().unwrap();
            assert_eq!(object.len(), 3);
            (
                object["name"].as_str().unwrap().to_string(),
                object["version"].as_str().unwrap().to_string(),
                object["integrity"].as_str().unwrap().to_string(),
            )
        })
        .collect()
}

fn download(p: &mut Package) {
    p.installed = true;
    p.integrity = if p.name == "@bendn/test" {
        TEST_INTEGRITY.to_string()
    } else {
        GDCLI_INTEGRITY.to_string()
    };
}

#[test]
fn parse() {
    let mut cfgs: [ConfigFile; 3] = [
        ConfigFile::new(&r#"dependencies: { "@bendn/test": 2.0.10 }"#.into()),
        ConfigFile::new(&"dependencies:\n  \"@bendn/test\": 2.0.10".into()),
        ConfigFile::new(&"[dependencies]\n\"@bendn/test\" = \"2.0.10\"".into()),
    ];
    let wanted_lockfile = entries(
        r#"[{"name":"@bendn/test","version":"2.0.10","integrity":"sha512-hyPGxDG8poa2ekmWr1BeTCUa7YaZYfhsN7jcLJ3q2cQVlowcTnzqmz4iV3t21QFyabE5R+rV+y6d5dAItrJeDw=="},{"name":"@bendn/gdcli","version":"1.2.5","integrity":"sha512-/YOAd1+K4JlKvPTmpX8B7VWxGtFrxKq4R0A6u5qOaaVPK6uGsl4dGZaIHpxuqcurEcwPEOabkoShXKZaOXB0lw=="}]"#,
    );
    for cfg in cfgs.iter_mut() {
        assert_eq!(cfg.packages.len(), 1);
        assert_eq!(cfg.packages[0].to_string(), "@bendn/test@2.0.10");
        cfg.packages[0]
            .dependencies
            .push(Package::new("@bendn/gdcli".to_string(), "1.2.5".to_string()));
        assert_eq!(cfg.packages[0].dependencies.len(), 1);
        assert_eq!(
            cfg.packages[0].dependencies[0].to_string(),
            "@bendn/gdcli@1.2.5"
        );
        cfg.for_each(|p| download(p));
        assert_eq!(
            entries(cfg.lock(|_| None).unwrap().as_str()),
            wanted_lockfile
        );
    }
}

#[test]
fn default_config_file_is_empty() {
    let mut cfg = ConfigFile::default();
    assert!(cfg.packages.is_empty());
    assert!(cfg.collect().is_empty());
    assert_eq!(cfg.lock(|_| None).unwrap(), "[]");
}

#[test]
fn lock_computes_the_integrity_of_what_was_installed() {
    let mut cfg = ConfigFile::new(&"dependencies:\n  \"@bendn/test\": 2.0.10".into());
    cfg.packages[0]
        .dependencies
        .push(Package::new("@bendn/gdcli".to_string(), "1.2.5".to_string()));
    cfg.for_each(|p| p.installed = true);
    let text = cfg
        .lock(|p| {
            if p.name == "@bendn/test" {
                Some(TEST_INTEGRITY.to_string())
            } else {
                Some(GDCLI_INTEGRITY.to_string())
            }
        })
        .unwrap();
    assert_eq!(
        entries(text.as_str()),
        vec![
            (
                "@bendn/test".to_string(),
                "2.0.10".to_string(),
                TEST_INTEGRITY.to_string()
            ),
            (
                "@bendn/gdcli".to_string(),
                "1.2.5".to_string(),
                GDCLI_INTEGRITY.to_string()
            ),
        ]
    );
}

#[test]
fn lock_without_gdcli_installed_has_one_entry() {
    let mut cfg = ConfigFile::new(&"dependencies:\n  \"@bendn/test\": 2.0.10".into());
    cfg.packages[0]
        .dependencies
        .push(Package::new("@bendn/gdcli".to_string(), "1.2.5".to_string()));
    download(&mut cfg.packages[0]);
    let text = cfg.lock(|_| None).unwrap();
    assert_eq!(
        entries(text.as_str()),
        vec![(
            "@bendn/test".to_string(),
            "2.0.10".to_string(),
            TEST_INTEGRITY.to_string()
        )]
    );
}
