use algorist::path_index::ParsedPaths;

#[test]
fn insert_path_adds_every_prefix() {
    let mut p = ParsedPaths::new();
    p.insert_path("lib_a/m/f");
    assert!(p.contains_path("lib_a"));
    assert!(p.contains_path("lib_a/m"));
    assert!(p.contains_path("lib_a/m/f"));
    assert!(!p.contains_path("lib_a/m/g"));
    assert!(!p.contains_path("m"));
    assert!(!p.contains_path("lib_a/"));
}

#[test]
fn empty_index_holds_nothing() {
    let p = ParsedPaths::new();
    assert!(!p.contains_path("lib_a"));
    assert!(!p.is_pub_use_used("lib_a/X"));
}

#[test]
fn insert_path_twice_changes_nothing() {
    let mut p = ParsedPaths::new();
    p.insert_path("a/b");
    p.insert_path("a/b");
    assert!(p.contains_path("a"));
    assert!(p.contains_path("a/b"));
}

#[test]
fn alias_pulls_in_its_target_and_is_marked() {
    let mut p = ParsedPaths::new();
    p.insert_pub_use_decl("lib_a/Thing", "lib_a/inner/Thing");
    p.insert_path("lib_a/Thing");
    assert!(p.contains_path("lib_a/inner"));
    assert!(p.contains_path("lib_a/inner/Thing"));
    assert!(p.is_pub_use_used("lib_a/Thing"));
    assert!(!p.is_pub_use_used("lib_a/inner/Thing"));
}

#[test]
fn alias_on_a_prefix_is_followed() {
    let mut p = ParsedPaths::new();
    p.insert_pub_use_decl("lib_a/prelude", "lib_a/deep/prelude");
    p.insert_path("lib_a/prelude/Item");
    assert!(p.contains_path("lib_a/deep"));
    assert!(p.contains_path("lib_a/deep/prelude"));
    assert!(p.is_pub_use_used("lib_a/prelude"));
    assert!(!p.contains_path("lib_a/deep/prelude/Item"));
}

#[test]
fn alias_chain_is_followed_transitively() {
    let mut p = ParsedPaths::new();
    p.insert_pub_use_decl("lib_a/X", "lib_a/mid/X");
    p.insert_pub_use_decl("lib_a/mid/X", "lib_a/deep/nested/X");
    p.insert_path("lib_a/X");
    assert!(p.contains_path("lib_a/deep/nested/X"));
    assert!(p.contains_path("lib_a/deep/nested"));
    assert!(p.is_pub_use_used("lib_a/X"));
    assert!(p.is_pub_use_used("lib_a/mid/X"));
}

#[test]
fn alias_cycle_terminates() {
    let mut p = ParsedPaths::new();
    p.insert_pub_use_decl("a/X", "a/Y");
    p.insert_pub_use_decl("a/Y", "a/X");
    p.insert_path("a/X");
    assert!(p.contains_path("a/X"));
    assert!(p.contains_path("a/Y"));
    assert!(p.is_pub_use_used("a/X"));
    assert!(p.is_pub_use_used("a/Y"));
}

#[test]
fn alias_with_used_target_is_still_marked() {
    let mut p = ParsedPaths::new();
    p.insert_path("lib_a/inner/Thing");
    p.insert_pub_use_decl("lib_a/Thing", "lib_a/inner/Thing");
    p.insert_path("lib_a/Thing");
    assert!(p.is_pub_use_used("lib_a/Thing"));
}

#[test]
fn later_alias_registration_wins() {
    let mut p = ParsedPaths::new();
    p.insert_pub_use_decl("lib_a/X", "lib_a/one/X");
    p.insert_pub_use_decl("lib_a/X", "lib_a/two/X");
    p.insert_path("lib_a/X");
    assert!(p.contains_path("lib_a/two/X"));
    assert!(!p.contains_path("lib_a/one"));
}

#[test]
fn joined_segments_prefixes_are_contained() {
    let segs = ["lib_a", "deep", "nested", "X"];
    let mut p = ParsedPaths::new();
    p.insert_path(&segs.join("/"));
    for k in 1..=segs.len() {
        assert!(p.contains_path(&segs[..k].join("/")));
    }
}

#[test]
fn every_used_path_has_its_prefixes() {
    let mut p = ParsedPaths::new();
    p.insert_pub_use_decl("lib_a/X", "lib_a/deep/nested/X");
    p.insert_path("lib_a/X");
    p.insert_path("lib_b/m");
    for used in ["lib_a/X", "lib_a/deep/nested/X", "lib_b/m"] {
        let segs: Vec<&str> = used.split('/').collect();
        for k in 1..=segs.len() {
            assert!(p.contains_path(&segs[..k].join("/")));
        }
    }
}

#[test]
fn std_reexport_pulls_in_no_user_crate() {
    let mut p = ParsedPaths::new();
    p.insert_pub_use_decl("lib_a/HashMap", "std/collections/HashMap");
    p.insert_path("lib_a/HashMap");
    assert!(p.contains_path("std"));
    assert!(p.contains_path("std/collections/HashMap"));
    assert!(!p.contains_path("lib_b"));
    assert!(!p.contains_path("lib_a/collections"));
    assert!(p.is_pub_use_used("lib_a/HashMap"));
}
