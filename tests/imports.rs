use algorist::imports::{
    extract_imported_paths, flatten_imported_paths, is_pub_use, is_test_module, join_path,
    tranform_alias_and_fqn,
};
use algorist::source::parse_source;
use algorist::syntax::{ImportTree, SourceItem, Vis};

fn use_tree(src: &str) -> ImportTree {
    let mut file = parse_source(src).unwrap();
    match file.items.remove(0) {
        SourceItem::Use(u) => u.tree,
        _ => panic!("not a use item"),
    }
}

fn strings(v: &[&str]) -> Vec<String> {
    v.iter().map(|s| s.to_string()).collect()
}

#[test]
fn extract_leaf_paths_of_a_group() {
    let t = use_tree("use a::{b, c::d, e as f, g::*};");
    let paths = extract_imported_paths(&t, Vec::new());
    assert_eq!(
        paths,
        vec![strings(&["a", "b"]), strings(&["a", "c", "d"]), strings(&["a", "f"]), strings(&["a", "g"])]
    );
}

#[test]
fn extract_leaf_paths_under_a_prefix() {
    let t = use_tree("use m::X;");
    let paths = extract_imported_paths(&t, strings(&["lib_a"]));
    assert_eq!(paths, vec![strings(&["lib_a", "m", "X"])]);
}

#[test]
fn root_glob_gives_one_empty_path() {
    let paths = extract_imported_paths(&ImportTree::Glob, Vec::new());
    assert_eq!(paths, vec![Vec::<String>::new()]);
}

#[test]
fn flatten_gives_one_public_item_per_leaf() {
    let t = use_tree("use a::{b, c::{d, e as f}};");
    let items = flatten_imported_paths(&t, Vec::new());
    assert_eq!(items.len(), 3);
    for item in &items {
        assert!(is_pub_use(item));
        assert!(item.attrs.is_empty());
        assert_eq!(extract_imported_paths(&item.tree, Vec::new()).len(), 1);
    }
    assert_eq!(
        items[2].tree,
        ImportTree::Path {
            ident: "a".to_string(),
            tree: Box::new(ImportTree::Path {
                ident: "c".to_string(),
                tree: Box::new(ImportTree::Rename { ident: "e".to_string(), rename: "f".to_string() }),
            }),
        }
    );
}

#[test]
fn flatten_then_extract_keeps_leaf_paths() {
    let t = use_tree("use a::{b, c::{d, *}, e::f as g, h};");
    let direct = extract_imported_paths(&t, Vec::new());
    let mut again = Vec::new();
    for item in flatten_imported_paths(&t, Vec::new()) {
        again.extend(extract_imported_paths(&item.tree, Vec::new()));
    }
    assert_eq!(again, direct);
}

#[test]
fn alias_and_target_inside_a_crate() {
    let (alias, target) = tranform_alias_and_fqn("Thing", "lib_a", &strings(&["inner", "Thing"]));
    assert_eq!(alias, "lib_a/Thing");
    assert_eq!(target, "lib_a/inner/Thing");
}

#[test]
fn alias_and_target_of_a_std_item() {
    let (alias, target) =
        tranform_alias_and_fqn("HashMap", "lib_a/m", &strings(&["std", "collections", "HashMap"]));
    assert_eq!(alias, "lib_a/m/HashMap");
    assert_eq!(target, "std/collections/HashMap");
}

#[test]
fn alias_and_target_of_no_segments() {
    let (alias, target) = tranform_alias_and_fqn("X", "lib_a", &[]);
    assert_eq!(alias, "X");
    assert_eq!(target, "lib_a");
}

#[test]
fn join_path_uses_slashes() {
    assert_eq!(join_path(&strings(&["a", "b", "c"])), "a/b/c");
    assert_eq!(join_path(&strings(&["a"])), "a");
    assert_eq!(join_path(&[]), "");
}

#[test]
fn test_module_is_recognised() {
    let file = parse_source("#[cfg(test)]\nmod tests {}\n#[cfg(not(test))]\nmod other {}\nmod plain;\n").unwrap();
    let flags: Vec<bool> = file
        .items
        .iter()
        .map(|i| match i {
            SourceItem::Mod(m) => is_test_module(m),
            _ => panic!("not a module"),
        })
        .collect();
    assert_eq!(flags, vec![true, false, false]);
}

#[test]
fn pub_use_is_recognised() {
    let file = parse_source("pub use a::b;\nuse a::c;\npub(crate) use a::d;\n").unwrap();
    let flags: Vec<bool> = file
        .items
        .iter()
        .map(|i| match i {
            SourceItem::Use(u) => is_pub_use(u),
            _ => panic!("not a use"),
        })
        .collect();
    assert_eq!(flags, vec![true, false, false]);
    match &file.items[2] {
        SourceItem::Use(u) => assert!(matches!(u.vis, Vis::Restricted(_))),
        _ => panic!("not a use"),
    }
}

#[test]
fn alias_and_target_of_a_crate_path() {
    let (alias, target) = tranform_alias_and_fqn("Thing", "lib_a/m", &strings(&["crate", "inner", "Thing"]));
    assert_eq!(alias, "lib_a/m/Thing");
    assert_eq!(target, "lib_a/inner/Thing");
}
