use harmonious_coloring::Config;

fn args(list: &[&str]) -> Vec<String> {
    list.iter().map(|s| s.to_string()).collect()
}

#[test]
fn build_takes_the_second_argument() {
    let config = Config::build(args(&["prog", "graphs.in"])).unwrap();
    assert_eq!(config.file_path, "graphs.in");
    let config = Config::build(args(&["prog", "a", "b"])).unwrap();
    assert_eq!(config.file_path, "a");
}

#[test]
fn build_without_a_path_fails() {
    assert_eq!(Config::build(args(&["prog"])).err(), Some("Didn't get a file path"));
    assert_eq!(Config::build(Vec::new()).err(), Some("Didn't get a file path"));
}
