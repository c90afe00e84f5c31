use gpm_config::config_file::ConfigFile;
use gpm_config::manifest::ConfigWrapper;

const MARKS: [char; 20] = [
    '\'', '"', '\\', 'u', '\u{e9}', '\u{20ac}', '\u{1f600}', '{', '}', '[', ']', ':', ',', '\n',
    ' ', '/', '*', '#', 'a', '1',
];

const MORE_MARKS: [char; 30] = [
    '=', '.', '-', '+', '_', 'e', 'T', 'Z', '0', '9', 'n', 'i', 'f', 'x', '&', '!', '|', '>', '?',
    '%', '@', '`', '\t', '~', '\r', '<', '\'', '"', '\u{e9}', ':',
];

fn texts(length: usize) -> Vec<String> {
    texts_of(&MARKS, length)
}

fn texts_of(marks: &[char], length: usize) -> Vec<String> {
    let mut all: Vec<String> = vec![String::new()];
    for _ in 0..length {
        let mut longer: Vec<String> = Vec::new();
        for text in all.iter() {
            for mark in marks.iter() {
                let mut next = text.clone();
                next.push(*mark);
                longer.push(next);
            }
        }
        all = longer;
    }
    all
}

fn read_all(prefix: &str, length: usize, suffix: &str) -> usize {
    let mut read: usize = 0;
    for middle in texts(length) {
        let text = format!("{}{}{}", prefix, middle, suffix);
        let wrapper = ConfigWrapper::read(text.as_str());
        let cfg = ConfigFile::try_new(&text);
        assert_eq!(wrapper.is_some(), cfg.is_some());
        if let (Some(w), Some(cfg)) = (wrapper, cfg) {
            assert_eq!(w.packages.len(), cfg.packages.len());
            read += 1;
        }
        let json = ConfigFile::from_json(&text);
        if let Ok(cfg) = json {
            assert!(ConfigWrapper::read_json(text.as_str()).is_ok());
            assert!(cfg.packages.len() <= text.len());
        }
    }
    read
}

#[test]
fn short_texts_are_read_or_refused() {
    for length in 0..4 {
        read_all("", length, "");
    }
}

#[test]
fn texts_of_four_marks_are_read_or_refused() {
    read_all("", 4, "");
}

#[test]
fn odd_versions_are_read_or_refused() {
    assert!(read_all("packages: {\n  a: ", 3, "\n}\n") > 0);
}

#[test]
fn odd_quoted_versions_are_read_or_refused() {
    assert!(read_all("packages: {\n  a: '", 3, "'\n}\n") > 0);
    assert!(read_all("packages: {\n  a: \"", 3, "\"\n}\n") > 0);
}

#[test]
fn odd_names_are_read_or_refused() {
    read_all("packages: {\n  ", 3, ": 1.0.0\n}\n");
    read_all("packages:\n  ", 3, ": 1.0.0\n");
}

#[test]
fn odd_multiline_texts_are_read_or_refused() {
    read_all("packages: {\n  a:\n    '''\n    ", 3, "\n    '''\n}\n");
}

#[test]
fn nested_texts_are_read_or_refused() {
    for depth in [1usize, 10, 100] {
        let open_lists = "[".repeat(depth);
        let closed_lists = "]".repeat(depth);
        let open_tables = "{\"a\":".repeat(depth);
        let closed_tables = "}".repeat(depth);
        for text in [
            format!("{{\"x\": {}{}}}", open_lists, closed_lists),
            format!("x = {}{}", open_lists, closed_lists),
            format!("x: {}{}", open_lists, closed_lists),
            format!("{{\"x\": {}1{}}}", open_tables, closed_tables),
        ] {
            let cfg = ConfigFile::try_new(&text);
            if let Some(cfg) = cfg {
                assert!(cfg.packages.is_empty());
            }
        }
    }
}

fn read_more(prefix: &str, length: usize, suffix: &str) {
    for middle in texts_of(&MORE_MARKS, length) {
        let text = format!("{}{}{}", prefix, middle, suffix);
        let cfg = ConfigFile::try_new(&text);
        assert_eq!(ConfigWrapper::read(text.as_str()).is_some(), cfg.is_some());
        let json = ConfigFile::from_json(&text);
        assert_eq!(ConfigWrapper::read_json(text.as_str()).is_ok(), json.is_ok());
    }
}

#[test]
fn odd_toml_values_are_read_or_refused() {
    read_more("a = ", 3, "\n");
    read_more("[packages]\na = \"", 3, "\"\n");
}

#[test]
fn odd_toml_keys_are_read_or_refused() {
    read_more("[", 3, "]\n");
    read_more("", 3, " = 1\n");
}

#[test]
fn odd_yaml_values_are_read_or_refused() {
    read_more("packages:\n  a: ", 3, "\n");
    read_more("a: &x 1\nb: ", 3, "\n");
}

#[test]
fn odd_yaml_texts_are_read_or_refused() {
    read_more("", 3, "");
    read_more("- ", 3, "\n");
}

#[test]
fn odd_json_texts_are_read_or_refused() {
    read_more("{\"packages\": {\"a\": \"", 3, "\"}}");
    read_more("{\"packages\": {\"a\": ", 3, "}}");
}
