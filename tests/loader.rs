use algorist::crates::Crates;
use algorist::error::BundleError;
use algorist::source_tree::{load_mod, SourceTree};

fn tree(files: &[(&str, &str)]) -> SourceTree {
    let mut t = SourceTree::new();
    for (p, text) in files {
        t.insert(p.to_string(), text);
    }
    t
}

#[test]
fn module_file_next_to_parent() {
    let t = tree(&[("c/src/m.rs", "pub fn f() {}")]);
    let (dir, path) = load_mod(&t, "c/src", "m").unwrap();
    assert_eq!(dir, "c/src");
    assert_eq!(path, "c/src/m.rs");
    assert!(matches!(t.get(&path), Some(Ok(_))));
}

#[test]
fn module_directory_with_entry_file() {
    let t = tree(&[("c/src/m/mod.rs", "pub mod n;")]);
    let (dir, path) = load_mod(&t, "c/src", "m").unwrap();
    assert_eq!(dir, "c/src/m");
    assert_eq!(path, "c/src/m/mod.rs");
}

#[test]
fn module_file_wins_over_directory() {
    let t = tree(&[("c/src/m/mod.rs", "pub fn d() {}"), ("c/src/m.rs", "pub fn f() {}")]);
    let (dir, path) = load_mod(&t, "c/src", "m").unwrap();
    assert_eq!(dir, "c/src");
    assert_eq!(path, "c/src/m.rs");
}

#[test]
fn unparsable_file_is_recorded_as_an_error() {
    let t = tree(&[("a.rs", "fn (")]);
    assert!(matches!(t.get("a.rs"), Some(Err(_))));
}

#[test]
fn missing_module_is_not_found() {
    let t = tree(&[("c/src/other.rs", "")]);
    assert_eq!(
        load_mod(&t, "c/src", "m").err(),
        Some(BundleError::PathNotFound { path: "c/src/m.rs".to_string() })
    );
}

#[test]
fn later_file_text_replaces_earlier() {
    let t = tree(&[("a.rs", "fn ("), ("a.rs", "pub fn f() {}")]);
    match t.get("a.rs") {
        Some(Ok(f)) => assert_eq!(f.items.len(), 1),
        _ => panic!("the later text should be recorded"),
    }
    assert!(t.get("b.rs").is_none());
}

#[test]
fn crate_names_fold_hyphens() {
    let mut c = Crates::new();
    c.push("my-lib", "crates/my-lib".to_string());
    assert!(c.contains("my_lib"));
    assert!(!c.contains("my-lib"));
    assert_eq!(c.path("my_lib").map(|s| s.as_str()), Some("crates/my-lib"));
    assert_eq!(c.path("other"), None);
}

#[test]
fn crate_list_is_in_registration_order_without_repeats() {
    let mut c = Crates::new();
    c.push("b", "crates/b".to_string());
    c.push("a", "crates/a".to_string());
    c.push("b", "crates/b2".to_string());
    let list = c.into_iter();
    assert_eq!(
        list,
        vec![
            ("a".to_string(), "crates/a".to_string()),
            ("b".to_string(), "crates/b2".to_string())
        ]
    );
}

#[test]
fn crates_from_manifests_read_package_name() {
    let c = Crates::from_manifests(vec![
        ("crates/x".to_string(), "[package]\nname = \"lib-x\"\nversion = \"0.1.0\"\n".to_string()),
        ("crates/y".to_string(), "[dependencies]\n".to_string()),
        ("crates/z".to_string(), "this is not toml = = =".to_string()),
    ]);
    assert!(c.contains("lib_x"));
    assert_eq!(c.path("lib_x").map(|s| s.as_str()), Some("crates/x"));
    assert_eq!(c.into_iter().len(), 1);
}
