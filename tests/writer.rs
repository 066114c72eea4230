use config_parser::text::split_path;
use config_parser::writer::generate_destination;
use config_parser::yaml_parser::handle_result;

#[test]
fn destination_replaces_final_extension() {
    assert_eq!(generate_destination("test/1.yaml"), "test/1.csv");
    assert_eq!(generate_destination("app.prod.properties"), "app.prod.csv");
    assert_eq!(generate_destination("noext"), "noext.csv");
    assert_eq!(generate_destination("trailing."), "trailing.csv");
}

#[test]
fn split_path_keeps_empty_segments() {
    let segs = split_path("a..b.");
    let as_strings: Vec<String> = segs.iter().map(|s| s.iter().collect()).collect();
    assert_eq!(as_strings, vec!["a", "", "b", ""]);
    assert_eq!(split_path("").len(), 1);
}

#[test]
fn handle_result_builds_record() {
    let r = handle_result("k".to_string(), "v".to_string());
    assert_eq!(r.key, "k");
    assert_eq!(r.value, "v");
}
