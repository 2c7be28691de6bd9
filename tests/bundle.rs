use algorist::crates::Crates;
use algorist::error::BundleError;
use algorist::phases::{scan_use, Bundler, BundlerContext};
use algorist::path_index::ParsedPaths;
use algorist::rewrite::post_process_output_string;
use algorist::source::{parse_source, print_source};
use algorist::source_tree::SourceTree;
use algorist::syntax::{ImportTree, ModuleItem, SourceFile, SourceItem, Vis};

fn manifest(name: &str) -> String {
    format!("[package]\nname = \"{name}\"\nversion = \"0.1.0\"\nedition = \"2021\"\n")
}

fn run(crate_names: &[&str], files: &[(&str, &str)]) -> Result<BundlerContext, BundleError> {
    let crates = Crates::from_manifests(
        crate_names.iter().map(|n| (format!("crates/{n}"), manifest(n))).collect(),
    );
    let mut sources = SourceTree::new();
    for (p, text) in files {
        sources.insert(p.to_string(), text);
    }
    Bundler::new(BundlerContext::new("p", crates, sources)).run()
}

fn printed(src: &str) -> String {
    print_source(parse_source(src).unwrap()).unwrap()
}

#[test]
fn trivial_pass_through() {
    let entry = "use std::io;\nfn main() {\n    let _ = io::stdin();\n}\n";
    let ctx = run(
        &["lib_a"],
        &[("src/bin/p.rs", entry), ("crates/lib_a/src/lib.rs", "pub mod m;\n"), ("crates/lib_a/src/m.rs", "")],
    )
    .unwrap();
    assert_eq!(ctx.out, format!("{}\n", printed(entry)));
    assert!(!ctx.used_paths.contains_path("lib_a"));
    assert!(!ctx.used_paths.contains_path("std"));
    assert!(ctx.log.iter().all(|l| !l.starts_with("Processing crate")));
    assert!(ctx.bundled.is_empty());
}

#[test]
fn single_module() {
    let ctx = run(
        &["lib_a"],
        &[
            ("src/bin/p.rs", "use lib_a::m::f;\nfn main() {\n    f();\n}\n"),
            ("crates/lib_a/src/lib.rs", "pub mod m;\npub mod spare;\n"),
            ("crates/lib_a/src/m.rs", "pub fn f() {}\n"),
            ("crates/lib_a/src/spare.rs", "pub fn g() {}\n"),
        ],
    )
    .unwrap();
    assert!(ctx.out.starts_with(&printed("use lib_a::m::f;\nfn main() {\n    f();\n}\n")));
    assert!(ctx.out.contains("mod lib_a {"));
    assert!(ctx.out.contains("pub mod m {"));
    assert!(ctx.out.contains("pub fn f() {}"));
    assert!(!ctx.out.contains("spare"));
    assert!(!ctx.out.contains("fn g"));
    assert_eq!(ctx.bundled, vec!["lib_a".to_string()]);
}

#[test]
fn alias_reexport_keeps_line_and_module() {
    let ctx = run(
        &["lib_a"],
        &[
            ("src/bin/p.rs", "use lib_a::Thing;\nfn main() {}\n"),
            ("crates/lib_a/src/lib.rs", "pub use inner::Thing;\npub use inner::Other;\npub mod inner;\n"),
            ("crates/lib_a/src/inner.rs", "pub struct Thing;\npub struct Other;\n"),
        ],
    )
    .unwrap();
    assert!(ctx.out.contains("pub use inner::Thing;"));
    assert!(!ctx.out.contains("pub use inner::Other;"));
    assert!(ctx.out.contains("pub mod inner {"));
    assert!(ctx.out.contains("pub struct Thing;"));
    assert!(ctx.used_paths.is_pub_use_used("lib_a/Thing"));
    assert!(!ctx.used_paths.is_pub_use_used("lib_a/Other"));
}

#[test]
fn grouped_reexport_keeps_only_used_leaves() {
    let ctx = run(
        &["lib_a"],
        &[
            ("src/bin/p.rs", "use lib_a::{A, C};\nfn main() {}\n"),
            ("crates/lib_a/src/lib.rs", "pub use inner::{A, B, C as D};\npub use inner::C;\npub mod inner;\n"),
            ("crates/lib_a/src/inner.rs", "pub struct A;\npub struct B;\npub struct C;\n"),
        ],
    )
    .unwrap();
    assert!(ctx.out.contains("pub use inner::A;"));
    assert!(!ctx.out.contains("pub use inner::B;"));
    assert!(!ctx.out.contains("pub use inner::C as D;"));
    assert!(ctx.out.contains("pub use inner::C;"));
}

#[test]
fn unused_crate_is_skipped() {
    let ctx = run(
        &["lib_a", "lib_b"],
        &[
            ("src/bin/p.rs", "use lib_a::m::f;\nfn main() {}\n"),
            ("crates/lib_a/src/lib.rs", "pub mod m;\n"),
            ("crates/lib_a/src/m.rs", "pub fn f() {}\n"),
            ("crates/lib_b/src/lib.rs", "pub fn h() {}\n"),
        ],
    )
    .unwrap();
    assert_eq!(ctx.out.matches("mod lib_a {").count(), 1);
    assert!(!ctx.out.contains("mod lib_b"));
    assert!(ctx.log.contains(&"Ignoring unused crate: lib_b".to_string()));
    assert!(ctx.log.contains(&"Processing crate: lib_a".to_string()));
    assert_eq!(ctx.bundled, vec!["lib_a".to_string()]);
}

#[test]
fn test_module_is_removed() {
    let ctx = run(
        &["lib_a"],
        &[
            ("src/bin/p.rs", "use lib_a::m::f;\nfn main() {}\n"),
            ("crates/lib_a/src/lib.rs", "pub mod m;\n#[cfg(test)]\nmod tests;\n"),
            (
                "crates/lib_a/src/m.rs",
                "pub fn f() {}\n#[cfg(test)]\nmod tests {\n    #[test]\n    fn t() {}\n}\n",
            ),
        ],
    )
    .unwrap();
    assert!(ctx.out.contains("pub fn f() {}"));
    assert!(!ctx.out.contains("mod tests"));
    assert!(!ctx.out.contains("fn t()"));
}

#[test]
fn nested_alias_chain() {
    let ctx = run(
        &["lib_a"],
        &[
            ("src/bin/p.rs", "use lib_a::X;\nfn main() {}\n"),
            ("crates/lib_a/src/lib.rs", "pub use deep::nested::X;\npub mod deep;\n"),
            ("crates/lib_a/src/deep/mod.rs", "pub mod nested;\npub mod other;\n"),
            ("crates/lib_a/src/deep/nested.rs", "pub struct X;\n"),
            ("crates/lib_a/src/deep/other.rs", "pub struct Y;\n"),
        ],
    )
    .unwrap();
    assert!(ctx.out.contains("pub use deep::nested::X;"));
    assert!(ctx.out.contains("pub mod deep {"));
    assert!(ctx.out.contains("pub mod nested {"));
    assert!(ctx.out.contains("pub struct X;"));
    assert!(!ctx.out.contains("other"));
    assert!(!ctx.out.contains("struct Y"));
}

#[test]
fn crate_paths_are_rerooted() {
    let ctx = run(
        &["lib_a"],
        &[
            ("src/bin/p.rs", "use lib_a::m::f;\nfn main() {}\n"),
            ("crates/lib_a/src/lib.rs", "pub mod m;\n"),
            ("crates/lib_a/src/m.rs", "pub struct S;\npub fn f() -> crate::m::S {\n    crate::m::S\n}\n"),
        ],
    )
    .unwrap();
    assert!(ctx.out.contains("crate::lib_a::m::S"));
    assert!(!ctx.out.contains("-> crate::m::S"));
}

#[test]
fn dropped_attributes_are_stripped() {
    let ctx = run(
        &["lib_a"],
        &[
            ("src/bin/p.rs", "use lib_a::m::f;\nfn main() {}\n"),
            ("crates/lib_a/src/lib.rs", "#![allow(clippy::all)]\n/// Docs.\n#[allow(unused)]\n#[cfg(feature = \"x\")]\n#[macro_use]\npub mod m;\n"),
            ("crates/lib_a/src/m.rs", "#[inline]\npub fn f() {}\n"),
        ],
    )
    .unwrap();
    assert!(!ctx.out.contains("Docs."));
    assert!(!ctx.out.contains("allow(unused)"));
    assert!(!ctx.out.contains("clippy"));
    assert!(!ctx.out.contains("feature"));
    assert!(ctx.out.contains("#[macro_use]"));
    assert!(ctx.out.contains("#[inline]"));
    assert!(ctx.out.contains("#[allow(dead_code)]"));
    assert!(ctx.out.contains("#[allow(unused_imports)]"));
    assert!(ctx.out.contains("#[allow(unused_macros)]"));
}

#[test]
fn bundling_twice_gives_the_same_output() {
    let files = [
        ("src/bin/p.rs", "use lib_a::X;\nuse lib_b::m::g;\nfn main() {}\n"),
        ("crates/lib_a/src/lib.rs", "pub use deep::X;\npub mod deep;\n"),
        ("crates/lib_a/src/deep.rs", "pub struct X;\n"),
        ("crates/lib_b/src/lib.rs", "pub mod m;\n"),
        ("crates/lib_b/src/m/mod.rs", "pub fn g() {}\n"),
    ];
    let first = run(&["lib_a", "lib_b"], &files).unwrap();
    let second = run(&["lib_a", "lib_b"], &files).unwrap();
    assert_eq!(first.out, second.out);
    assert_eq!(first.bundled, vec!["lib_a".to_string(), "lib_b".to_string()]);
    assert_eq!(first.out.matches("mod lib_a {").count(), 1);
    assert_eq!(first.out.matches("mod lib_b {").count(), 1);
}

#[test]
fn missing_entry_file_is_not_found() {
    let err = run(&["lib_a"], &[("crates/lib_a/src/lib.rs", "")]).err();
    assert_eq!(err, Some(BundleError::PathNotFound { path: "src/bin/p.rs".to_string() }));
}

#[test]
fn entry_that_does_not_parse_fails() {
    let err = run(&["lib_a"], &[("src/bin/p.rs", "fn main( {"), ("crates/lib_a/src/lib.rs", "")]).err();
    assert!(matches!(err, Some(BundleError::ParseError { path, .. }) if path == "src/bin/p.rs"));
}

#[test]
fn missing_module_file_fails() {
    let err = run(
        &["lib_a"],
        &[("src/bin/p.rs", "fn main() {}\n"), ("crates/lib_a/src/lib.rs", "pub mod gone;\n")],
    )
    .err();
    assert_eq!(err, Some(BundleError::PathNotFound { path: "crates/lib_a/src/gone.rs".to_string() }));
}

#[test]
fn module_that_includes_itself_fails() {
    let err = run(
        &["lib_a"],
        &[
            ("src/bin/p.rs", "fn main() {}\n"),
            ("crates/lib_a/src/lib.rs", "pub mod a;\n"),
            ("crates/lib_a/src/a.rs", "pub mod a;\n"),
        ],
    )
    .err();
    assert!(matches!(err, Some(BundleError::ModuleCycle { .. })));
}

#[test]
fn crate_without_library_root_is_skipped() {
    let ctx = run(
        &["lib_a", "lib_b"],
        &[
            ("src/bin/p.rs", "use lib_b::x;\nfn main() {}\n"),
            ("crates/lib_a/src/lib.rs", "pub fn y() {}\n"),
        ],
    )
    .unwrap();
    assert!(ctx.log.contains(&"Library file not found, skipping crate: lib_b".to_string()));
    assert!(ctx.bundled.is_empty());
}

#[test]
fn module_name_that_is_no_identifier_cannot_print() {
    let file = SourceFile {
        shebang: None,
        attrs: Vec::new(),
        items: vec![SourceItem::Mod(ModuleItem {
            attrs: Vec::new(),
            vis: Vis::Inherited,
            unsafety: false,
            ident: "two words".to_string(),
            content: Some(Vec::new()),
        })],
    };
    assert_eq!(
        print_source(file).err(),
        Some(BundleError::InvalidName { name: "two words".to_string() })
    );
}

#[test]
fn rewrite_reroots_crate_paths() {
    assert_eq!(
        post_process_output_string("lib_a", "use crate::inner::Thing;\nfn f() -> crate::X {}\n").unwrap(),
        "use crate::lib_a::inner::Thing;\nfn f() -> crate::lib_a::X {}\n"
    );
    assert_eq!(post_process_output_string("lib_a", "use crate::{a, b};").unwrap(), "use crate::{a, b};");
}

#[test]
fn root_glob_makes_nothing_used() {
    let crates = Crates::from_manifests(vec![("crates/lib_a".to_string(), manifest("lib_a"))]);
    let mut used = ParsedPaths::new();
    scan_use(&mut used, &crates, &ImportTree::Glob);
    assert!(!used.contains_path("lib_a"));
    assert!(!used.contains_path(""));
}

#[test]
fn alias_reexport_through_crate_path() {
    let ctx = run(
        &["lib_a"],
        &[
            ("src/bin/p.rs", "use lib_a::Thing;\nfn main() {}\n"),
            ("crates/lib_a/src/lib.rs", "pub use crate::inner::Thing;\npub mod inner;\n"),
            ("crates/lib_a/src/inner.rs", "pub struct Thing;\n"),
        ],
    )
    .unwrap();
    assert!(ctx.out.contains("pub use crate::lib_a::inner::Thing;"));
    assert!(ctx.out.contains("pub mod inner {"));
    assert!(ctx.out.contains("pub struct Thing;"));
    assert!(ctx.used_paths.contains_path("lib_a/inner/Thing"));
}

#[test]
fn nested_alias_chain_through_crate_path() {
    let ctx = run(
        &["lib_a"],
        &[
            ("src/bin/p.rs", "use lib_a::X;\nfn main() {}\n"),
            ("crates/lib_a/src/lib.rs", "pub use crate::deep::nested::X;\npub mod deep;\n"),
            ("crates/lib_a/src/deep/mod.rs", "pub mod nested;\npub mod other;\n"),
            ("crates/lib_a/src/deep/nested.rs", "pub struct X;\n"),
            ("crates/lib_a/src/deep/other.rs", "pub struct Y;\n"),
        ],
    )
    .unwrap();
    assert!(ctx.out.contains("pub use crate::lib_a::deep::nested::X;"));
    assert!(ctx.out.contains("pub mod deep {"));
    assert!(ctx.out.contains("pub mod nested {"));
    assert!(ctx.out.contains("pub struct X;"));
    assert!(!ctx.out.contains("struct Y"));
}

#[test]
fn test_module_inside_inline_module_is_removed() {
    let ctx = run(
        &["lib_a"],
        &[
            ("src/bin/p.rs", "use lib_a::m::f;\nfn main() {}\n"),
            (
                "crates/lib_a/src/lib.rs",
                "pub mod m {\n    pub fn f() {}\n    #[cfg(test)]\n    mod tests {\n        fn t() {}\n    }\n}\n",
            ),
        ],
    )
    .unwrap();
    assert!(ctx.out.contains("pub fn f() {}"));
    assert!(!ctx.out.contains("mod tests"));
}

#[test]
fn become_expression_prints() {
    let entry = "fn g() {}\nfn main() {\n    become g();\n}\n";
    let ctx = run(&["lib_a"], &[("src/bin/p.rs", entry), ("crates/lib_a/src/lib.rs", "")]).unwrap();
    assert!(ctx.out.contains("become g()"));
}
