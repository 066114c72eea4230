use config_parser::config::Configuration;
use config_parser::linter::{fetch_file_types, lint_keys, record_keys, FileTypeError, Filetype, Outlier};
use config_parser::model::Record;

fn get_yaml_config() -> Configuration {
    Configuration {
        files: vec!["test/1.yaml".to_string(), "test/2.yaml".to_string()],
        keys: vec!["one.big.cascade".to_string(), "url".to_string()],
        cli: false,
    }
}

fn get_prop_config() -> Configuration {
    Configuration {
        files: vec!["test/1.properties".to_string(), "test/2.properties".to_string()],
        keys: vec!["this.is.a".to_string(), "this.counts".to_string(), "this.is.mixed".to_string()],
        cli: false,
    }
}

fn batch(entries: &[(&str, &[&str])]) -> Vec<(String, Vec<String>)> {
    entries
        .iter()
        .map(|(f, ks)| (f.to_string(), ks.iter().map(|k| k.to_string()).collect()))
        .collect()
}

fn strings(v: &[&str]) -> Vec<String> {
    v.iter().map(|s| s.to_string()).collect()
}

#[test]
fn fetches_yaml() {
    let config = get_yaml_config();
    let result = fetch_file_types(&config);
    assert!(matches!(result, Ok(Filetype::Yaml)));
}

#[test]
fn fetches_prop() {
    let config = get_prop_config();
    let result = fetch_file_types(&config);
    assert!(matches!(result, Ok(Filetype::Properties)));
}

#[test]
fn fetches_err() {
    let config = Configuration {
        files: vec!["1.properties".to_string(), "2.yaml".to_string()],
        keys: Vec::new(),
        cli: false,
    };
    let result = fetch_file_types(&config);
    assert!(matches!(result, Err(FileTypeError::Inconsistent)));
}

#[test]
fn fetches_no_files() {
    let config = Configuration { files: Vec::new(), keys: Vec::new(), cli: false };
    assert!(matches!(fetch_file_types(&config), Err(FileTypeError::NoFiles)));
}

#[test]
fn fetches_unsupported() {
    let config = Configuration {
        files: vec!["a.toml".to_string(), "dir.v2/b.toml".to_string()],
        keys: Vec::new(),
        cli: true,
    };
    match fetch_file_types(&config) {
        Err(FileTypeError::Unsupported(e)) => assert_eq!(e, "toml"),
        other => panic!("unexpected {:?}", other),
    }
}

#[test]
fn fetches_uses_last_extension() {
    let config = Configuration {
        files: vec!["app.prod.yaml".to_string(), "app.yaml".to_string()],
        keys: Vec::new(),
        cli: false,
    };
    assert!(matches!(fetch_file_types(&config), Ok(Filetype::Yaml)));
}

#[test]
fn outlier_reported_with_missing_files() {
    let b = batch(&[("F1", &["x", "y"]), ("F2", &["x"])]);
    let r = lint_keys(&b);
    assert_eq!(r.len(), 1);
    assert_eq!(r[0].key, "y");
    assert_eq!(r[0].present_in, strings(&["F1"]));
    assert_eq!(r[0].missing_from, strings(&["F2"]));
}

#[test]
fn no_outliers_when_keys_agree() {
    let b = batch(&[("F1", &["x", "y"]), ("F2", &["y", "x"])]);
    assert!(lint_keys(&b).is_empty());
}

#[test]
fn duplicate_key_in_one_file_is_still_an_outlier() {
    let b = batch(&[("F1", &["x", "x"]), ("F2", &[])]);
    let r = lint_keys(&b);
    assert_eq!(r.len(), 1);
    assert_eq!(r[0].key, "x");
    assert_eq!(r[0].missing_from, strings(&["F2"]));
}

#[test]
fn missing_files_follow_batch_order() {
    let b = batch(&[("c", &["k"]), ("a", &[]), ("b", &["k", "z"]), ("d", &[])]);
    let r = lint_keys(&b);
    let keys: Vec<&str> = r.iter().map(|o: &Outlier| o.key.as_str()).collect();
    assert_eq!(keys, vec!["k", "z"]);
    assert_eq!(r[0].present_in, strings(&["c", "b"]));
    assert_eq!(r[0].missing_from, strings(&["a", "d"]));
    assert_eq!(r[1].present_in, strings(&["b"]));
    assert_eq!(r[1].missing_from, strings(&["c", "a", "d"]));
}

#[test]
fn linting_twice_gives_same_outliers() {
    let b = batch(&[("F1", &["x", "y", "w"]), ("F2", &["x"]), ("F3", &["w", "q"])]);
    let r1 = lint_keys(&b);
    let r2 = lint_keys(&b);
    assert_eq!(r1.len(), r2.len());
    for (a, c) in r1.iter().zip(r2.iter()) {
        assert_eq!(a.key, c.key);
        assert_eq!(a.present_in, c.present_in);
        assert_eq!(a.missing_from, c.missing_from);
    }
    assert_eq!(r1.len(), 4);
}

#[test]
fn empty_batch_has_no_outliers() {
    assert!(lint_keys(&Vec::new()).is_empty());
}

#[test]
fn record_keys_in_order() {
    let recs = vec![
        Record { key: "b".to_string(), value: "1".to_string() },
        Record { key: "a".to_string(), value: "2".to_string() },
    ];
    assert_eq!(record_keys(&recs), strings(&["b", "a"]));
}
