use ranim::manifest::{example_entries, manifest_examples, TomlValue};

fn s(x: &str) -> TomlValue {
    TomlValue::Str(x.to_string())
}

fn table(entries: Vec<(&str, TomlValue)>) -> TomlValue {
    TomlValue::Table(entries.into_iter().map(|(k, v)| (k.to_string(), v)).collect())
}

fn pair(a: &str, b: &str) -> (String, String) {
    (a.to_string(), b.to_string())
}

#[test]
fn example_entries_list_names_and_paths_in_order() {
    let manifest = vec![
        ("package".to_string(), table(vec![("name", s("ranim"))])),
        (
            "example".to_string(),
            TomlValue::Array(vec![
                table(vec![("name", s("hello")), ("path", s("examples/hello/main.rs"))]),
                table(vec![("path", s("examples/arc.rs")), ("name", s("arc")), ("test", TomlValue::Bool(true))]),
            ]),
        ),
    ];
    assert_eq!(
        example_entries(&manifest),
        Some(vec![pair("hello", "examples/hello/main.rs"), pair("arc", "examples/arc.rs")])
    );
}

#[test]
fn example_entries_fail_on_a_bad_item_or_no_array() {
    let bad_path = vec![(
        "example".to_string(),
        TomlValue::Array(vec![
            table(vec![("name", s("a")), ("path", s("a.rs"))]),
            table(vec![("name", s("b")), ("path", TomlValue::Int(3))]),
        ]),
    )];
    assert_eq!(example_entries(&bad_path), None);
    let not_table = vec![("example".to_string(), TomlValue::Array(vec![s("a")]))];
    assert_eq!(example_entries(&not_table), None);
    let no_array = vec![("example".to_string(), table(vec![]))];
    assert_eq!(example_entries(&no_array), None);
    assert_eq!(example_entries(&vec![]), None);
    let empty = vec![("example".to_string(), TomlValue::Array(vec![]))];
    assert_eq!(example_entries(&empty), Some(vec![]));
}

#[test]
fn manifest_examples_read_a_manifest_text() {
    let text = "[package]\nname = \"ranim\"\n\n[[example]]\nname = \"hello\"\npath = \"examples/hello/main.rs\"\n\n[[example]]\nname = \"arc\"\npath = \"examples/arc/main.rs\"\n";
    assert_eq!(
        manifest_examples(text),
        Some(vec![pair("hello", "examples/hello/main.rs"), pair("arc", "examples/arc/main.rs")])
    );
    assert_eq!(manifest_examples("[[example]]\nname = 1\npath = \"x\"\n"), None);
    assert_eq!(manifest_examples("this is = = not toml"), None);
}

#[test]
fn manifest_package_name_reads_the_package_table() {
    assert_eq!(
        ranim::manifest::manifest_package_name("[package]\nname = \"my_anim\"\nversion = \"0.1.0\"\n"),
        Some("my_anim".to_string())
    );
    assert_eq!(ranim::manifest::manifest_package_name("[workspace]\nmembers = []\n"), None);
    assert_eq!(ranim::manifest::manifest_package_name("[package]\nname = 3\n"), None);
}
