use algorist::crates::manifest_crate_name;
use algorist::scaffold::{checksum_entry, external_crate_line, is_ignored_entry, problem_stem};

#[test]
fn problem_stem_drops_trailing_rs() {
    assert_eq!(problem_stem("a.rs"), "a");
    assert_eq!(problem_stem("a"), "a");
    assert_eq!(problem_stem("b.rs.rs"), "b");
    assert_eq!(problem_stem("rs"), "rs");
    assert_eq!(problem_stem(".rs"), "");
}

#[test]
fn dependency_line_for_external_and_published_crate() {
    assert_eq!(external_crate_line(Some("algo")), "algo = { path = \"crates/algo\" }");
    assert_eq!(external_crate_line(None), "algorist = \"0.10\"");
}

#[test]
fn ignored_entries() {
    assert!(is_ignored_entry(".git"));
    assert!(is_ignored_entry("target"));
    assert!(is_ignored_entry("Cargo.lock"));
    assert!(!is_ignored_entry("src"));
}

#[test]
fn checksum_entry_hashes_and_normalises() {
    let (path, hash) = checksum_entry("src\\lib.rs", b"abc").unwrap();
    assert_eq!(path, "src/lib.rs");
    assert_eq!(hash, "ba7816bf8f01cfea414140de5dae2223b00361a396177a9cb410ff61f20015ad");
    assert!(checksum_entry(".cargo-checksum.json", b"{}").is_none());
}

#[test]
fn manifest_crate_name_keeps_hyphens() {
    assert_eq!(manifest_crate_name("[package]\nname = \"my-algo\"\n").as_deref(), Some("my-algo"));
    assert_eq!(manifest_crate_name("[package]\nversion = \"1\"\n"), None);
}
