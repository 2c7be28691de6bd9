//! The bundler's phases: re-export indexing over every library crate, the
//! scan of the entry file, and the expansion of the used modules of each
//! used crate.

use vstd::prelude::*;
use crate::canonical::{all_segments, is_canonical, is_segment, join_segments};
use crate::crates::Crates;
use crate::error::BundleError;
use crate::imports::{
    alias_and_target, extract_imported_paths, is_pub_use, is_test_module, join_path, leaf_paths,
    paths_view, strings_view, tranform_alias_and_fqn,
};
use crate::path_index::{state_after_inserts, IndexState, ParsedPaths};
use crate::expand::{
    child_path, child_path_text, expand_items, expandable_upto, expanded_items, strip_attributes,
};
use crate::imports::has_test_cfg;
use crate::rewrite::post_process_output_string;
use crate::source::{attrs_from_syntax, item_names_ok, items_names_ok, print_source};
use crate::syn_bridge::is_identifier;
use crate::source_tree::{load_mod, module_source, Parsed, SourceTree};
use crate::syn_bridge::{error_message, outer_attributes_parse, parse_outer_attributes};
use crate::rewrite::{crate_path_pattern, regex_compiles};
use crate::syntax::{copy_attrs, copy_file, Attr, ImportTree, ModuleItem, SourceFile, SourceItem, Vis};

verus! {

/// The registrations that re-exporting the leaf paths `leaves` under `ip`
/// makes: one per non-empty leaf whose target is a canonical path, in order.
pub open spec fn alias_registrations(leaves: Seq<Seq<Seq<char>>>, ip: Seq<char>) -> Seq<
    (Seq<char>, Seq<char>),
>
    decreases leaves.len(),
{
    if leaves.len() == 0 {
        Seq::empty()
    } else {
        let prev = alias_registrations(leaves.drop_last(), ip);
        let leaf = leaves.last();
        if leaf.len() > 0 && is_canonical(alias_and_target(leaf.last(), ip, leaf).1) {
            prev.push(alias_and_target(leaf.last(), ip, leaf))
        } else {
            prev
        }
    }
}

/// `m` with the registrations applied in turn.
pub open spec fn with_aliases(m: Map<Seq<char>, Seq<char>>, regs: Seq<(Seq<char>, Seq<char>)>) -> Map<
    Seq<char>,
    Seq<char>,
>
    decreases regs.len(),
{
    if regs.len() == 0 {
        m
    } else {
        with_aliases(m, regs.drop_last()).insert(regs.last().0, regs.last().1)
    }
}

/// The paths that the leaves `leaves` of an entry-file import make used: each
/// leaf rooted at a known crate, made of segments, joined with `/`.
pub open spec fn scan_paths(leaves: Seq<Seq<Seq<char>>>, crates: Map<Seq<char>, Seq<char>>) -> Seq<
    Seq<char>,
>
    decreases leaves.len(),
{
    if leaves.len() == 0 {
        Seq::empty()
    } else {
        let prev = scan_paths(leaves.drop_last(), crates);
        let leaf = leaves.last();
        if leaf.len() > 0 && crates.contains_key(leaf[0]) && all_segments(leaf) {
            prev.push(join_segments(leaf))
        } else {
            prev
        }
    }
}

/// The paths that the top-level `use` items of an entry file make used.
pub open spec fn entry_paths(items: Seq<SourceItem>, crates: Map<Seq<char>, Seq<char>>) -> Seq<
    Seq<char>,
>
    decreases items.len(),
{
    if items.len() == 0 {
        Seq::empty()
    } else {
        let prev = entry_paths(items.drop_last(), crates);
        match items.last() {
            SourceItem::Use(u) => prev + scan_paths(leaf_paths(u.tree, Seq::empty()), crates),
            _ => prev,
        }
    }
}

/// Records the aliases that the `pub use` tree `tree`, found under
/// `import_path`, introduces.
pub fn register_pub_use(index: &mut ParsedPaths, tree: &ImportTree, import_path: &String)
    requires
        old(index).wf(),
    ensures
        final(index).wf(),
        final(index).paths_set() == old(index).paths_set(),
        final(index).hits_set() == old(index).hits_set(),
        final(index).alias_map() == with_aliases(
            old(index).alias_map(),
            alias_registrations(leaf_paths(*tree, Seq::empty()), import_path@),
        ),
{
    let leaves = extract_imported_paths(tree, Vec::new());
    let ghost lv = paths_view(leaves@);
    proof {
        assert(strings_view(Seq::<String>::empty()) =~= Seq::<Seq<char>>::empty());
        assert(lv.subrange(0, 0) =~= Seq::<Seq<Seq<char>>>::empty());
    }
    let mut k: usize = 0;
    while k < leaves.len()
        invariant
            k <= leaves@.len(),
            lv == paths_view(leaves@),
            lv == leaf_paths(*tree, Seq::empty()),
            index.wf(),
            index.paths_set() == old(index).paths_set(),
            index.hits_set() == old(index).hits_set(),
            index.alias_map() == with_aliases(
                old(index).alias_map(),
                alias_registrations(lv.subrange(0, k as int), import_path@),
            ),
        decreases leaves.len() - k,
    {
        let leaf = &leaves[k];
        proof {
            assert(lv.subrange(0, k + 1).drop_last() =~= lv.subrange(0, k as int));
            assert(lv[k as int] == strings_view(leaf@));
        }
        let ghost prev = alias_registrations(lv.subrange(0, k as int), import_path@);
        if leaf.len() > 0 {
            let last = &leaf[leaf.len() - 1];
            assert(strings_view(leaf@).last() == last@);
            let (alias, target) = tranform_alias_and_fqn(last.as_str(), import_path.as_str(), leaf.as_slice());
            if is_canonical_text(target.as_str()) {
                index.insert_pub_use_decl(alias.as_str(), target.as_str());
                proof {
                    let regs = alias_registrations(lv.subrange(0, k + 1), import_path@);
                    assert(regs == prev.push((alias@, target@)));
                    assert(regs.drop_last() =~= prev);
                }
            }
        }
        k += 1;
    }
    proof {
        assert(lv.subrange(0, leaves@.len() as int) =~= lv);
    }
}

/// Makes used the paths that the entry-file `use` tree `tree` names under a
/// known crate.
#[verifier::rlimit(50)]
pub fn scan_use(used: &mut ParsedPaths, crates: &Crates, tree: &ImportTree)
    requires
        old(used).wf(),
    ensures
        final(used).wf(),
        final(used).state() == state_after_inserts(
            old(used).state(),
            scan_paths(leaf_paths(*tree, Seq::empty()), crates.crates_map()),
        ),
{
    let leaves = extract_imported_paths(tree, Vec::new());
    let ghost lv = paths_view(leaves@);
    let ghost cm = crates.crates_map();
    proof {
        assert(strings_view(Seq::<String>::empty()) =~= Seq::<Seq<char>>::empty());
        assert(lv.subrange(0, 0) =~= Seq::<Seq<Seq<char>>>::empty());
    }
    let mut k: usize = 0;
    while k < leaves.len()
        invariant
            k <= leaves@.len(),
            lv == paths_view(leaves@),
            lv == leaf_paths(*tree, Seq::empty()),
            cm == crates.crates_map(),
            used.wf(),
            used.state() == state_after_inserts(
                old(used).state(),
                scan_paths(lv.subrange(0, k as int), cm),
            ),
        decreases leaves.len() - k,
    {
        let leaf = &leaves[k];
        proof {
            assert(lv.subrange(0, k + 1).drop_last() =~= lv.subrange(0, k as int));
            assert(lv[k as int] == strings_view(leaf@));
        }
        if leaf.len() > 0 && crates.contains(leaf[0].as_str()) && segments_text(leaf) {
            let p = join_path(leaf.as_slice());
            proof {
                crate::canonical::lemma_join_prefixes(strings_view(leaf@), 1);
            }
            let ghost before = used.state();
            used.insert_path(p.as_str());
            proof {
                let ps = scan_paths(lv.subrange(0, k + 1), cm);
                assert(ps.drop_last() =~= scan_paths(lv.subrange(0, k as int), cm));
            }
        }
        k += 1;
    }
    proof {
        assert(lv.subrange(0, leaves@.len() as int) =~= lv);
    }
}

/// Makes used the paths that the top-level `use` items of the entry file
/// name under a known crate.
pub fn scan_entry(used: &mut ParsedPaths, crates: &Crates, items: &Vec<SourceItem>)
    requires
        old(used).wf(),
    ensures
        final(used).wf(),
        final(used).state() == state_after_inserts(
            old(used).state(),
            entry_paths(items@, crates.crates_map()),
        ),
{
    let ghost cm = crates.crates_map();
    proof {
        assert(items@.subrange(0, 0) =~= Seq::<SourceItem>::empty());
    }
    let mut j: usize = 0;
    while j < items.len()
        invariant
            j <= items@.len(),
            cm == crates.crates_map(),
            used.wf(),
            used.state() == state_after_inserts(
                old(used).state(),
                entry_paths(items@.subrange(0, j as int), cm),
            ),
        decreases items.len() - j,
    {
        proof {
            assert(items@.subrange(0, j + 1).drop_last() =~= items@.subrange(0, j as int));
        }
        match &items[j] {
            SourceItem::Use(u) => {
                let ghost mid = used.state();
                scan_use(used, crates, &u.tree);
                proof {
                    lemma_inserts_append(
                        old(used).state(),
                        entry_paths(items@.subrange(0, j as int), cm),
                        scan_paths(leaf_paths(u.tree, Seq::empty()), cm),
                    );
                }
            },
            _ => {},
        }
        j += 1;
    }
    proof {
        assert(items@.subrange(0, items@.len() as int) =~= items@);
    }
}

/// A glob at the root of an entry-file import has the empty leaf path, which
/// makes no path used.
pub proof fn lemma_root_glob_ignored(crates: Map<Seq<char>, Seq<char>>)
    ensures
        leaf_paths(ImportTree::Glob, Seq::empty()) == seq![Seq::<Seq<char>>::empty()],
        scan_paths(leaf_paths(ImportTree::Glob, Seq::empty()), crates).len() == 0,
{
    let leaves = leaf_paths(ImportTree::Glob, Seq::empty());
    assert(leaves.len() == 1);
    assert(leaves.drop_last() =~= Seq::<Seq<Seq<char>>>::empty());
    assert(scan_paths(leaves.drop_last(), crates) =~= Seq::<Seq<char>>::empty());
    assert(leaves.last().len() == 0);
}

/// Inserting `a` then `b` is inserting `a + b`.
pub proof fn lemma_inserts_append(s: IndexState, a: Seq<Seq<char>>, b: Seq<Seq<char>>)
    ensures
        state_after_inserts(state_after_inserts(s, a), b) == state_after_inserts(s, a + b),
    decreases b.len(),
{
    if b.len() == 0 {
        assert(a + b =~= a);
    } else {
        lemma_inserts_append(s, a, b.drop_last());
        assert((a + b).drop_last() =~= a + b.drop_last());
        assert((a + b).last() == b.last());
    }
}

/// The alias registrations that indexing the first `k` of `items` makes,
/// under import path `ip` in a file of directory `dir`, in order: a
/// `pub use` registers its leaves; a module that is not a test module is
/// entered, an inlined one through its body and a declared-only one through
/// its file, under `<ip>/<name>`. `None` where a declared module has no file,
/// its file did not parse, or files nest deeper than `depth`.
pub open spec fn items_regs(
    files: Map<Seq<char>, Parsed>,
    items: Seq<SourceItem>,
    k: int,
    ip: Seq<char>,
    dir: Seq<char>,
    depth: nat,
) -> Option<Seq<(Seq<char>, Seq<char>)>>
    decreases depth, items, k,
{
    if k <= 0 || k > items.len() {
        Some(Seq::empty())
    } else {
        match items_regs(files, items, k - 1, ip, dir, depth) {
            None => None,
            Some(prev) => match item_regs(files, items[k - 1], ip, dir, depth) {
                None => None,
                Some(r) => Some(prev + r),
            },
        }
    }
}

/// The alias registrations that indexing one item makes.
pub open spec fn item_regs(
    files: Map<Seq<char>, Parsed>,
    item: SourceItem,
    ip: Seq<char>,
    dir: Seq<char>,
    depth: nat,
) -> Option<Seq<(Seq<char>, Seq<char>)>>
    decreases depth, item, 0int,
{
    match item {
        SourceItem::Mod(m) => if has_test_cfg(m.attrs@) {
            Some(Seq::empty())
        } else {
            let child = child_path(ip, m.ident@);
            match m.content {
                Some(c) => items_regs(files, c@, c@.len() as int, child, dir, depth),
                None => if depth == 0 {
                    None
                } else {
                    match module_source(files, dir, m.ident@) {
                        Some((d, p)) => match files[p] {
                            Ok(f) => items_regs(
                                files,
                                f.items@,
                                f.items@.len() as int,
                                child,
                                d,
                                (depth - 1) as nat,
                            ),
                            Err(_) => None,
                        },
                        None => None,
                    }
                },
            }
        },
        SourceItem::Use(u) => if u.vis is Public {
            Some(alias_registrations(leaf_paths(u.tree, Seq::empty()), ip))
        } else {
            Some(Seq::empty())
        },
        SourceItem::Other(_) => Some(Seq::empty()),
    }
}

/// Once indexing fails, indexing more items fails too.
proof fn lemma_items_regs_none(
    files: Map<Seq<char>, Parsed>,
    items: Seq<SourceItem>,
    k: int,
    n: int,
    ip: Seq<char>,
    dir: Seq<char>,
    depth: nat,
)
    requires
        0 <= k <= n <= items.len(),
        items_regs(files, items, k, ip, dir, depth) is None,
    ensures
        items_regs(files, items, n, ip, dir, depth) is None,
    decreases n,
{
    if n > k {
        lemma_items_regs_none(files, items, k, n - 1, ip, dir, depth);
    }
}

/// Applying `a` then `b` is applying `a + b`.
proof fn lemma_with_aliases_append(
    m: Map<Seq<char>, Seq<char>>,
    a: Seq<(Seq<char>, Seq<char>)>,
    b: Seq<(Seq<char>, Seq<char>)>,
)
    ensures
        with_aliases(with_aliases(m, a), b) == with_aliases(m, a + b),
    decreases b.len(),
{
    if b.len() == 0 {
        assert(a + b =~= a);
    } else {
        lemma_with_aliases_append(m, a, b.drop_last());
        assert((a + b).drop_last() =~= a + b.drop_last());
        assert((a + b).last() == b.last());
    }
}

/// Records the re-export aliases of `items`, which stand under
/// `state.import_path` in a file of `state.path`, descending into every
/// module that is not a test module: an inlined one through its body, a
/// declared-only one through its file. At most `depth` files are loaded
/// along any chain of nested modules.
pub fn collect_pub_use_decls(
    index: &mut ParsedPaths,
    sources: &SourceTree,
    items: &Vec<SourceItem>,
    state: &TraverseCrates,
    depth: usize,
) -> (r: Result<(), BundleError>)
    requires
        old(index).wf(),
    ensures
        final(index).wf(),
        final(index).paths_set() == old(index).paths_set(),
        final(index).hits_set() == old(index).hits_set(),
        r is Ok <==> items_regs(
            sources.files_map(),
            items@,
            items@.len() as int,
            state.import_path@,
            state.path@,
            depth as nat,
        ) is Some,
        r is Ok ==> final(index).alias_map() == with_aliases(
            old(index).alias_map(),
            items_regs(
                sources.files_map(),
                items@,
                items@.len() as int,
                state.import_path@,
                state.path@,
                depth as nat,
            )->0,
        ),
    decreases depth, *items,
{
    let ghost files = sources.files_map();
    let ghost ip = state.import_path@;
    let ghost dir = state.path@;
    let mut j: usize = 0;
    while j < items.len()
        invariant
            j <= items@.len(),
            files == sources.files_map(),
            ip == state.import_path@,
            dir == state.path@,
            index.wf(),
            index.paths_set() == old(index).paths_set(),
            index.hits_set() == old(index).hits_set(),
            items_regs(files, items@, j as int, ip, dir, depth as nat) is Some,
            index.alias_map() == with_aliases(
                old(index).alias_map(),
                items_regs(files, items@, j as int, ip, dir, depth as nat)->0,
            ),
        decreases items.len() - j,
    {
        let ghost prev = items_regs(files, items@, j as int, ip, dir, depth as nat)->0;
        let ghost before = index.alias_map();
        let ghost it = items@[j as int];
        match &items[j] {
            SourceItem::Mod(m) => {
                if !is_test_module(m) {
                    let child = child_path_text(&state.import_path, &m.ident);
                    match &m.content {
                        Some(c) => {
                            proof {
                                assert(decreases_to!(*items => items@));
                                assert(decreases_to!(items@ => it));
                                assert(decreases_to!(it => it->Mod_0));
                                assert(decreases_to!(it->Mod_0 => it->Mod_0.content));
                                assert(decreases_to!(it->Mod_0.content => it->Mod_0.content->0));
                            }
                            let inner = TraverseCrates {
                                crate_name: state.crate_name.clone(),
                                path: state.path.clone(),
                                import_path: child,
                            };
                            let res = collect_pub_use_decls(index, sources, c, &inner, depth);
                            if res.is_err() {
                                proof {
                                    lemma_items_regs_none(files, items@, j + 1, items@.len() as int, ip, dir, depth as nat);
                                }
                                return res;
                            }
                        },
                        None => {
                            if depth == 0 {
                                proof {
                                    lemma_items_regs_none(files, items@, j + 1, items@.len() as int, ip, dir, depth as nat);
                                }
                                return Err(BundleError::ModuleCycle { path: child });
                            }
                            let loaded = load_mod(sources, state.path.as_str(), m.ident.as_str());
                            let (child_dir, file_path) = match loaded {
                                Ok(found) => found,
                                Err(e) => {
                                    proof {
                                        lemma_items_regs_none(files, items@, j + 1, items@.len() as int, ip, dir, depth as nat);
                                    }
                                    return Err(e);
                                },
                            };
                            let parsed = sources.get(file_path.as_str());
                            match parsed {
                                Some(Ok(file)) => {
                                    let inner = TraverseCrates {
                                        crate_name: state.crate_name.clone(),
                                        path: child_dir,
                                        import_path: child,
                                    };
                                    let res = collect_pub_use_decls(index, sources, &file.items, &inner, depth - 1);
                                    if res.is_err() {
                                        proof {
                                            lemma_items_regs_none(files, items@, j + 1, items@.len() as int, ip, dir, depth as nat);
                                        }
                                        return res;
                                    }
                                },
                                Some(Err(message)) => {
                                    proof {
                                        lemma_items_regs_none(files, items@, j + 1, items@.len() as int, ip, dir, depth as nat);
                                    }
                                    return Err(BundleError::ParseError { path: file_path, message: message.clone() });
                                },
                                None => {
                                    proof {
                                        lemma_items_regs_none(files, items@, j + 1, items@.len() as int, ip, dir, depth as nat);
                                    }
                                    return Err(BundleError::PathNotFound { path: file_path });
                                },
                            }
                        },
                    }
                }
            },
            SourceItem::Use(u) => {
                if is_pub_use(u) {
                    register_pub_use(index, &u.tree, &state.import_path);
                }
            },
            SourceItem::Other(_) => {},
        }
        proof {
            let r = item_regs(files, it, ip, dir, depth as nat)->0;
            assert(items_regs(files, items@, j + 1, ip, dir, depth as nat) == Some(prev + r));
            lemma_with_aliases_append(old(index).alias_map(), prev, r);
            if it is Mod && has_test_cfg(it->Mod_0.attrs@) {
                assert(r =~= Seq::<(Seq<char>, Seq<char>)>::empty());
                assert(prev + r =~= prev);
            }
            if it is Other || (it is Use && !(it->Use_0.vis is Public)) {
                assert(prev + r =~= prev);
            }
        }
        j += 1;
    }
    Ok(())
}

/// `a` followed by `b`.
fn joined(a: &str, b: &str) -> (r: String)
    ensures
        r@ == a@ + b@,
{
    let mut s = String::from_str(a);
    s.append(b);
    s
}

/// `<dir>/src`, the source root of a crate.
fn crate_src_dir(dir: &String) -> (r: String)
    ensures
        r@ == dir@ + "/src"@,
{
    joined(dir.as_str(), "/src")
}

/// `<dir>/src/lib.rs`, the library root of a crate.
fn crate_lib_file(dir: &String) -> (r: String)
    ensures
        r@ == dir@ + "/src/lib.rs"@,
{
    joined(dir.as_str(), "/src/lib.rs")
}

/// What the bundler works with: the problem, the crates, the index of used
/// paths, the source files, the output and the progress lines.
pub struct BundlerContext {
    /// Problem ID; the entry file is `src/bin/<id>.rs`.
    pub problem_id: String,
    /// The library crates of the project.
    pub crates: Crates,
    /// The used paths and re-export aliases.
    pub used_paths: ParsedPaths,
    /// The project's source files, by path from the project root.
    pub sources: SourceTree,
    /// The bundled file.
    pub out: String,
    /// Progress lines.
    pub log: Vec<String>,
    /// The crates bundled as modules, in output order.
    pub bundled: Vec<String>,
}

impl BundlerContext {
    /// A context with an empty index and an empty output.
    pub fn new(problem_id: &str, crates: Crates, sources: SourceTree) -> (r: Self)
        ensures
            r.problem_id@ == problem_id@,
            r.crates == crates,
            r.sources == sources,
            r.used_paths.wf(),
            r.used_paths.paths_set() == Set::<Seq<char>>::empty(),
            r.used_paths.alias_map() == Map::<Seq<char>, Seq<char>>::empty(),
            r.used_paths.hits_set() == Set::<Seq<char>>::empty(),
            r.out@ == Seq::<char>::empty(),
            r.log@.len() == 0,
            r.bundled@.len() == 0,
    {
        BundlerContext {
            problem_id: String::from_str(problem_id),
            crates,
            used_paths: ParsedPaths::new(),
            sources,
            out: String::new(),
            log: Vec::new(),
            bundled: Vec::new(),
        }
    }
}

/// A phase of bundling.
pub trait BunlingPhase {}

/// The first phase, indexing re-exports: the crate being walked, the directory of the
/// file being read and the import path the walker stands at.
pub struct TraverseCrates {
    pub crate_name: String,
    pub path: String,
    pub import_path: String,
}

/// The second phase: scanning the entry file.
pub struct ParseBinary {}

/// The third phase, expanding used modules: the crate being expanded, the directory
/// of the file being read and the import path the walker stands at.
pub struct ExpandMods {
    pub crate_name: String,
    pub path: String,
    pub import_path: String,
}

/// The end of bundling.
pub struct CompleteBundling {}

impl BunlingPhase for TraverseCrates {}

impl BunlingPhase for ParseBinary {}

impl BunlingPhase for ExpandMods {}

impl BunlingPhase for CompleteBundling {}

/// Runs the phases over a context, one after the other.
pub struct Bundler<P: BunlingPhase> {
    pub ctx: BundlerContext,
    pub state: P,
}

/// Indexing re-exports over all crates of `c` succeeds.
pub open spec fn index_ok(c: BundlerContext) -> bool {
    crates_regs(
        c.sources.files_map(),
        c.crates.listed(),
        c.crates.listed().len() as int,
        c.sources.recorded(),
    ) is Some
}

/// `after` is `before` with the re-exports of every crate indexed.
pub open spec fn indexed(before: BundlerContext, after: BundlerContext) -> bool {
    &&& after.used_paths.wf()
    &&& after.used_paths.paths_set() == before.used_paths.paths_set()
    &&& after.used_paths.hits_set() == before.used_paths.hits_set()
    &&& after.used_paths.alias_map() == with_aliases(
        before.used_paths.alias_map(),
        crates_regs(
            before.sources.files_map(),
            before.crates.listed(),
            before.crates.listed().len() as int,
            before.sources.recorded(),
        )->0,
    )
    &&& after.crates == before.crates
    &&& after.sources == before.sources
    &&& after.out == before.out
    &&& after.bundled == before.bundled
    &&& after.problem_id == before.problem_id
    &&& strings_view(after.log@) == strings_view(before.log@) + index_log(
        before.sources.files_map(),
        before.crates.listed(),
        before.crates.listed().len() as int,
    )
}

/// `after` is `before` with the entry file scanned and written: its paths
/// under known crates are inserted, and the output gains the printed entry
/// and a newline.
pub open spec fn entry_scanned(before: BundlerContext, after: BundlerContext) -> bool {
    let e = entry_file(before.problem_id@);
    let files = before.sources.files_map();
    &&& files.contains_key(e)
    &&& files[e] is Ok
    &&& after.used_paths.wf()
    &&& after.used_paths.state() == state_after_inserts(
        before.used_paths.state(),
        entry_paths(files[e]->Ok_0.items@, before.crates.crates_map()),
    )
    &&& after.crates == before.crates
    &&& after.sources == before.sources
    &&& after.bundled == before.bundled
    &&& after.problem_id == before.problem_id
    &&& after.out@.len() > before.out@.len()
    &&& after.out@.subrange(0, before.out@.len() as int) == before.out@
    &&& after.out@.last() == '\n'
}

/// `after` is `before` with every used crate that has a library root
/// bundled, in crate order, and written after the output so far.
pub open spec fn crates_expanded(before: BundlerContext, after: BundlerContext) -> bool {
    &&& after.used_paths == before.used_paths
    &&& after.out@.len() >= before.out@.len()
    &&& after.out@.subrange(0, before.out@.len() as int) == before.out@
    &&& after.crates == before.crates
    &&& after.sources == before.sources
    &&& after.problem_id == before.problem_id
    &&& strings_view(after.bundled@) == strings_view(before.bundled@) + bundled_names(
        before.sources.files_map(),
        before.used_paths.paths_set(),
        before.crates.listed(),
        before.crates.listed().len() as int,
    )
    &&& strings_view(after.log@) == strings_view(before.log@) + expand_log(
        before.sources.files_map(),
        before.used_paths.paths_set(),
        before.crates.listed(),
        before.crates.listed().len() as int,
    )
    &&& forall|a: int, c: int|
        before.bundled@.len() <= a < c < after.bundled@.len() ==> (#[trigger] after.bundled@[a])@
            != (#[trigger] after.bundled@[c])@
}

/// `after` is `before` with the closing progress line written.
pub open spec fn completed(before: BundlerContext, after: BundlerContext) -> bool {
    &&& after.out == before.out
    &&& after.used_paths == before.used_paths
    &&& after.bundled == before.bundled
    &&& after.crates == before.crates
    &&& after.sources == before.sources
    &&& after.problem_id == before.problem_id
    &&& strings_view(after.log@) == strings_view(before.log@).push(
        "Bundled successfully: problem "@ + before.problem_id@,
    )
}

/// Expanding the crates of `c` may fail: some crate does not expand or
/// cannot be printed, or the fixed rewrite pattern or wrapper attributes do
/// not parse.
pub open spec fn expansion_fails(c: BundlerContext) -> bool {
    ||| !crates_expand_ok(c)
    ||| (exists|k: int| crate_prints_badly(c, k))
    ||| !regex_compiles(crate_path_pattern())
    ||| !outer_attributes_parse(wrapper_attribute_text())
}

/// A run over `c` may fail: indexing fails, the entry file is missing, did
/// not parse or holds a name that is no identifier, or expansion fails after
/// the entry scan.
pub open spec fn run_fails(c: BundlerContext) -> bool {
    let e = entry_file(c.problem_id@);
    let files = c.sources.files_map();
    ||| !index_ok(c)
    ||| !files.contains_key(e)
    ||| files[e] is Err
    ||| !items_names_ok(files[e]->Ok_0.items@, files[e]->Ok_0.items@.len() as int)
    ||| exists|a: BundlerContext, b: BundlerContext|
        #[trigger] indexed(c, a) && #[trigger] entry_scanned(a, b) && expansion_fails(b)
}

/// Every used crate with a library root expands.
pub open spec fn crates_expand_ok(c: BundlerContext) -> bool {
    forall|k: int|
        0 <= k < c.crates.listed().len() ==> crate_expandable(
            c.sources.files_map(),
            c.used_paths.paths_set(),
            c.used_paths.hits_set(),
            (#[trigger] c.crates.listed()[k]).0@,
            c.crates.listed()[k].1@,
            c.sources.recorded(),
        )
}

impl Bundler<TraverseCrates> {
    /// A bundler over `ctx`, at the first phase.
    pub fn new(ctx: BundlerContext) -> (r: Self)
        ensures
            r.ctx == ctx,
    {
        let state = TraverseCrates {
            crate_name: String::new(),
            path: String::new(),
            import_path: String::new(),
        };
        Bundler { ctx, state }
    }

    /// Indexes re-exports, scans the entry file and expands the used crates,
    /// in that order.
    pub fn run(self) -> (r: Result<BundlerContext, BundleError>)
        requires
            self.ctx.used_paths.wf(),
        ensures
            !index_ok(self.ctx) ==> r is Err,
            r matches Ok(c) ==> exists|a: BundlerContext, b: BundlerContext, d: BundlerContext|
                #[trigger] indexed(self.ctx, a) && #[trigger] entry_scanned(a, b)
                    && #[trigger] crates_expanded(b, d) && completed(d, c),
            ({
                let e = entry_file(self.ctx.problem_id@);
                index_ok(self.ctx) && !self.ctx.sources.files_map().contains_key(e) ==> (r matches Err(
                    BundleError::PathNotFound { path },
                ) && path@ == e)
            }),
            r is Err ==> run_fails(self.ctx),
    {
        let ghost sctx = self.ctx;
        let a = self.traverse_crates()?;
        let ghost actx = a.ctx;
        let b = match a.parse_binary() {
            Ok(b) => b,
            Err(e) => {
                proof {
                    let files = sctx.sources.files_map();
                    let ee = entry_file(sctx.problem_id@);
                    assert(actx.sources == sctx.sources && actx.problem_id == sctx.problem_id);
                    if files.contains_key(ee) && files[ee] is Ok {
                        assert(!items_names_ok(files[ee]->Ok_0.items@, files[ee]->Ok_0.items@.len() as int));
                    }
                }
                return Err(e);
            },
        };
        let ghost bctx = b.ctx;
        let c = match b.expand_mods() {
            Ok(c) => c,
            Err(e) => {
                proof {
                    assert(indexed(sctx, actx) && entry_scanned(actx, bctx) && expansion_fails(bctx));
                }
                return Err(e);
            },
        };
        let ghost cctx = c.ctx;
        let done = c.complete_bundling();
        proof {
            assert(indexed(self.ctx, actx) && entry_scanned(actx, bctx) && crates_expanded(bctx, cctx)
                && completed(cctx, done));
        }
        Ok(done)
    }

    /// Indexes the `pub use` re-exports of every crate. A crate without a
    /// library root is skipped with a progress line. Succeeds exactly when
    /// every library root parsed and every declared module it reaches has a
    /// file that parsed.
    pub fn traverse_crates(self) -> (r: Result<Bundler<ParseBinary>, BundleError>)
        requires
            self.ctx.used_paths.wf(),
        ensures
            r is Ok <==> index_ok(self.ctx),
            r matches Ok(b) ==> indexed(self.ctx, b.ctx),
    {
        let mut b = self;
        b.index_crates()?;
        Ok(Bundler { ctx: b.ctx, state: ParseBinary {} })
    }
}

impl Bundler<ParseBinary> {
    /// Scans the top-level `use` items of the entry file `src/bin/<id>.rs`,
    /// making used every path they name under a known crate, and writes the
    /// entry file, printed unchanged, to the output.
    pub fn parse_binary(self) -> (r: Result<Bundler<ExpandMods>, BundleError>)
        requires
            self.ctx.used_paths.wf(),
        ensures
            r matches Ok(b) ==> entry_scanned(self.ctx, b.ctx),
            ({
                let e = entry_file(self.ctx.problem_id@);
                let files = self.ctx.sources.files_map();
                &&& !files.contains_key(e) ==> (r matches Err(BundleError::PathNotFound { path })
                    && path@ == e)
                &&& files.contains_key(e) && files[e] is Err ==> (r matches Err(
                    BundleError::ParseError { path, message },
                ) && path@ == e && message == files[e]->Err_0)
                &&& files.contains_key(e) && files[e] is Ok ==> (r is Ok <==> items_names_ok(
                    files[e]->Ok_0.items@,
                    files[e]->Ok_0.items@.len() as int,
                ))
                &&& files.contains_key(e) && files[e] is Ok ==> (r is Ok || r matches Err(
                    BundleError::InvalidName { .. },
                ))
            }),
    {
        let mut b = self;
        b.scan_entry_file()?;
        let state = ExpandMods {
            crate_name: String::new(),
            path: String::new(),
            import_path: String::new(),
        };
        Ok(Bundler { ctx: b.ctx, state })
    }
}

impl Bundler<ExpandMods> {
    /// Expands each used crate that has a library root, in crate order, into
    /// a module named after it, and writes it to the output with its
    /// `crate::` paths re-rooted. An unused crate and a crate without a
    /// library root are skipped with a progress line.
    pub fn expand_mods(self) -> (r: Result<Bundler<CompleteBundling>, BundleError>)
        requires
            self.ctx.used_paths.wf(),
        ensures
            r matches Ok(b) ==> crates_expanded(self.ctx, b.ctx),
            r matches Err(e) ==> e is InvalidName || e is Internal || !crates_expand_ok(self.ctx),
            r matches Err(e) ==> e is InvalidName ==> exists|k: int| crate_prints_badly(self.ctx, k),
            r matches Err(e) ==> e is Internal ==> !regex_compiles(crate_path_pattern())
                || !outer_attributes_parse(wrapper_attribute_text()),
    {
        let mut b = self;
        b.expand_crates()?;
        Ok(Bundler { ctx: b.ctx, state: CompleteBundling {} })
    }
}

impl Bundler<CompleteBundling> {
    /// Ends the run with a progress line and hands the context back.
    pub fn complete_bundling(self) -> (r: BundlerContext)
        ensures
            r.out == self.ctx.out,
            r.used_paths == self.ctx.used_paths,
            r.bundled == self.ctx.bundled,
            r.crates == self.ctx.crates,
            r.sources == self.ctx.sources,
            r.problem_id == self.ctx.problem_id,
            completed(self.ctx, r),
    {
        let mut ctx = self.ctx;
        let line = joined("Bundled successfully: problem ", ctx.problem_id.as_str());
        let ghost before = ctx.log@;
        ctx.log.push(line);
        assert(strings_view(ctx.log@) =~= strings_view(before).push(
            "Bundled successfully: problem "@ + ctx.problem_id@,
        ));
        ctx
    }
}

/// `<dir>/src/lib.rs`
pub open spec fn lib_file(dir: Seq<char>) -> Seq<char> {
    dir + "/src/lib.rs"@
}

/// `<dir>/src`
pub open spec fn src_dir(dir: Seq<char>) -> Seq<char> {
    dir + "/src"@
}

/// `src/bin/<id>.rs`
pub open spec fn entry_file(id: Seq<char>) -> Seq<char> {
    "src/bin/"@ + id + ".rs"@
}

/// The alias registrations that indexing the first `k` crates of `list`
/// makes: a crate without a library root adds none; `None` where a library
/// root did not parse or indexing its items fails.
pub open spec fn crates_regs(
    files: Map<Seq<char>, Parsed>,
    list: Seq<(String, String)>,
    k: int,
    depth: nat,
) -> Option<Seq<(Seq<char>, Seq<char>)>>
    decreases k,
{
    if k <= 0 || k > list.len() {
        Some(Seq::empty())
    } else {
        match crates_regs(files, list, k - 1, depth) {
            None => None,
            Some(prev) => {
                let name = list[k - 1].0@;
                let lib = lib_file(list[k - 1].1@);
                if !files.contains_key(lib) {
                    Some(prev)
                } else {
                    match files[lib] {
                        Ok(f) => match items_regs(
                            files,
                            f.items@,
                            f.items@.len() as int,
                            name,
                            src_dir(list[k - 1].1@),
                            depth,
                        ) {
                            Some(r) => Some(prev + r),
                            None => None,
                        },
                        Err(_) => None,
                    }
                }
            },
        }
    }
}

proof fn lemma_crates_regs_none(
    files: Map<Seq<char>, Parsed>,
    list: Seq<(String, String)>,
    k: int,
    n: int,
    depth: nat,
)
    requires
        0 <= k <= n <= list.len(),
        crates_regs(files, list, k, depth) is None,
    ensures
        crates_regs(files, list, n, depth) is None,
    decreases n,
{
    if n > k {
        lemma_crates_regs_none(files, list, k, n - 1, depth);
    }
}

/// Expanding the crate `name` at `dir` succeeds: an unused crate or one
/// without a library root is skipped; otherwise its root parsed and its
/// items expand.
pub open spec fn crate_expandable(
    files: Map<Seq<char>, Parsed>,
    paths: Set<Seq<char>>,
    hits: Set<Seq<char>>,
    name: Seq<char>,
    dir: Seq<char>,
    depth: nat,
) -> bool {
    let lib = lib_file(dir);
    ||| !paths.contains(name)
    ||| !files.contains_key(lib)
    ||| (files[lib] matches Ok(f) && expandable_upto(
        files,
        f.items@,
        f.items@.len() as int,
        name,
        src_dir(dir),
        paths,
        hits,
        depth,
    ))
}

/// The names of the first `k` crates of `list` that are used and have a
/// library root, in order: the crates that expansion bundles.
pub open spec fn bundled_names(
    files: Map<Seq<char>, Parsed>,
    paths: Set<Seq<char>>,
    list: Seq<(String, String)>,
    k: int,
) -> Seq<Seq<char>>
    decreases k,
{
    if k <= 0 || k > list.len() {
        Seq::empty()
    } else {
        let prev = bundled_names(files, paths, list, k - 1);
        if paths.contains(list[k - 1].0@) && files.contains_key(lib_file(list[k - 1].1@)) {
            prev.push(list[k - 1].0@)
        } else {
            prev
        }
    }
}

/// The `k`-th crate of `c` is used and has a library root that parsed, but
/// its name or a name in an expansion of its items is not an identifier, so
/// its wrapper module cannot be printed.
pub open spec fn crate_prints_badly(c: BundlerContext, k: int) -> bool {
    let files = c.sources.files_map();
    let name = c.crates.listed()[k].0@;
    let dir = c.crates.listed()[k].1@;
    let lib = lib_file(dir);
    &&& 0 <= k < c.crates.listed().len()
    &&& c.used_paths.paths_set().contains(name)
    &&& files.contains_key(lib)
    &&& files[lib] matches Ok(f)
    &&& (!is_identifier(name) || exists|out: Seq<SourceItem>|
        #[trigger] expanded_items(
            files,
            out,
            f.items@,
            name,
            src_dir(dir),
            c.used_paths.paths_set(),
            c.used_paths.hits_set(),
            c.sources.recorded(),
        ) && !items_names_ok(out, out.len() as int))
}

/// The progress lines that indexing the first `k` crates of `list` writes:
/// one for each crate without a library root.
pub open spec fn index_log(files: Map<Seq<char>, Parsed>, list: Seq<(String, String)>, k: int) -> Seq<
    Seq<char>,
>
    decreases k,
{
    if k <= 0 || k > list.len() {
        Seq::empty()
    } else {
        let prev = index_log(files, list, k - 1);
        if files.contains_key(lib_file(list[k - 1].1@)) {
            prev
        } else {
            prev.push("Library file not found, skipping crate: "@ + list[k - 1].0@)
        }
    }
}

/// The progress lines that expanding the first `k` crates of `list` writes:
/// an unused crate is ignored; a used one is processed, or skipped when it
/// has no library root.
pub open spec fn expand_log(
    files: Map<Seq<char>, Parsed>,
    paths: Set<Seq<char>>,
    list: Seq<(String, String)>,
    k: int,
) -> Seq<Seq<char>>
    decreases k,
{
    if k <= 0 || k > list.len() {
        Seq::empty()
    } else {
        let prev = expand_log(files, paths, list, k - 1);
        let name = list[k - 1].0@;
        if !paths.contains(name) {
            prev.push("Ignoring unused crate: "@ + name)
        } else if !files.contains_key(lib_file(list[k - 1].1@)) {
            prev.push("Processing crate: "@ + name).push(
                "Library file not found, skipping crate: "@ + name,
            )
        } else {
            prev.push("Processing crate: "@ + name)
        }
    }
}

impl<P: BunlingPhase> Bundler<P> {
    fn index_crates(&mut self) -> (r: Result<(), BundleError>)
        requires
            old(self).ctx.used_paths.wf(),
        ensures
            final(self).ctx.used_paths.wf(),
            final(self).ctx.used_paths.paths_set() == old(self).ctx.used_paths.paths_set(),
            final(self).ctx.used_paths.hits_set() == old(self).ctx.used_paths.hits_set(),
            final(self).ctx.crates == old(self).ctx.crates,
            final(self).ctx.sources == old(self).ctx.sources,
            final(self).ctx.out == old(self).ctx.out,
            final(self).ctx.bundled == old(self).ctx.bundled,
            final(self).ctx.problem_id == old(self).ctx.problem_id,
            r is Ok <==> crates_regs(
                old(self).ctx.sources.files_map(),
                old(self).ctx.crates.listed(),
                old(self).ctx.crates.listed().len() as int,
                old(self).ctx.sources.recorded(),
            ) is Some,
            r is Ok ==> strings_view(final(self).ctx.log@) == strings_view(old(self).ctx.log@)
                + index_log(
                old(self).ctx.sources.files_map(),
                old(self).ctx.crates.listed(),
                old(self).ctx.crates.listed().len() as int,
            ),
            r is Ok ==> final(self).ctx.used_paths.alias_map() == with_aliases(
                old(self).ctx.used_paths.alias_map(),
                crates_regs(
                    old(self).ctx.sources.files_map(),
                    old(self).ctx.crates.listed(),
                    old(self).ctx.crates.listed().len() as int,
                    old(self).ctx.sources.recorded(),
                )->0,
            ),
    {
        let list = self.ctx.crates.entries_list();
        let depth = self.ctx.sources.recorded_count();
        let ghost files = self.ctx.sources.files_map();
        let mut k: usize = 0;
        while k < list.len()
            invariant
                k <= list@.len(),
                list@ == old(self).ctx.crates.listed(),
                files == old(self).ctx.sources.files_map(),
                depth == old(self).ctx.sources.recorded(),
                self.ctx.used_paths.wf(),
                self.ctx.used_paths.paths_set() == old(self).ctx.used_paths.paths_set(),
                self.ctx.used_paths.hits_set() == old(self).ctx.used_paths.hits_set(),
                self.ctx.crates == old(self).ctx.crates,
                self.ctx.sources == old(self).ctx.sources,
                self.ctx.out == old(self).ctx.out,
                self.ctx.bundled == old(self).ctx.bundled,
                self.ctx.problem_id == old(self).ctx.problem_id,
                crates_regs(files, list@, k as int, depth as nat) is Some,
                strings_view(self.ctx.log@) == strings_view(old(self).ctx.log@) + index_log(files, list@, k as int),
                self.ctx.used_paths.alias_map() == with_aliases(
                    old(self).ctx.used_paths.alias_map(),
                    crates_regs(files, list@, k as int, depth as nat)->0,
                ),
            decreases list.len() - k,
        {
            let ghost prev = crates_regs(files, list@, k as int, depth as nat)->0;
            let name = &list[k].0;
            let dir = &list[k].1;
            let lib = crate_lib_file(dir);
            match self.ctx.sources.get(lib.as_str()) {
                Some(Ok(file)) => {
                    let state = TraverseCrates {
                        crate_name: name.clone(),
                        path: crate_src_dir(dir),
                        import_path: name.clone(),
                    };
                    let res = collect_pub_use_decls(
                        &mut self.ctx.used_paths,
                        &self.ctx.sources,
                        &file.items,
                        &state,
                        depth,
                    );
                    if res.is_err() {
                        proof {
                            lemma_crates_regs_none(files, list@, k + 1, list@.len() as int, depth as nat);
                        }
                        return res;
                    }
                    proof {
                        let r = items_regs(files, file.items@, file.items@.len() as int, name@, src_dir(dir@), depth as nat)->0;
                        lemma_with_aliases_append(old(self).ctx.used_paths.alias_map(), prev, r);
                    }
                },
                Some(Err(message)) => {
                    proof {
                        lemma_crates_regs_none(files, list@, k + 1, list@.len() as int, depth as nat);
                    }
                    return Err(BundleError::ParseError { path: lib, message: message.clone() });
                },
                None => {
                    let ghost log_before = self.ctx.log@;
                    self.ctx.log.push(joined("Library file not found, skipping crate: ", name.as_str()));
                    proof {
                        let l = "Library file not found, skipping crate: "@ + name@;
                        let lines = index_log(files, list@, k as int);
                        assert(strings_view(self.ctx.log@) =~= strings_view(log_before).push(l));
                        assert(strings_view(old(self).ctx.log@) + lines.push(l) =~= (strings_view(old(self).ctx.log@) + lines).push(l));
                    }
                },
            }
            k += 1;
        }
        Ok(())
    }

    fn scan_entry_file(&mut self) -> (r: Result<(), BundleError>)
        requires
            old(self).ctx.used_paths.wf(),
        ensures
            final(self).ctx.used_paths.wf(),
            final(self).ctx.used_paths.alias_map() == old(self).ctx.used_paths.alias_map(),
            final(self).ctx.crates == old(self).ctx.crates,
            final(self).ctx.sources == old(self).ctx.sources,
            final(self).ctx.bundled == old(self).ctx.bundled,
            ({
                let e = entry_file(old(self).ctx.problem_id@);
                let files = old(self).ctx.sources.files_map();
                &&& !files.contains_key(e) ==> (r matches Err(BundleError::PathNotFound { path })
                    && path@ == e && final(self).ctx.used_paths == old(self).ctx.used_paths
                    && final(self).ctx.out == old(self).ctx.out)
                &&& files.contains_key(e) && files[e] is Err ==> (r matches Err(
                    BundleError::ParseError { path, message },
                ) && path@ == e && message == files[e]->Err_0 && final(self).ctx.used_paths
                    == old(self).ctx.used_paths && final(self).ctx.out == old(self).ctx.out)
                &&& files.contains_key(e) && files[e] is Ok ==> {
                    &&& final(self).ctx.used_paths.state() == state_after_inserts(
                        old(self).ctx.used_paths.state(),
                        entry_paths(files[e]->Ok_0.items@, old(self).ctx.crates.crates_map()),
                    )
                    &&& (r is Ok <==> items_names_ok(
                        files[e]->Ok_0.items@,
                        files[e]->Ok_0.items@.len() as int,
                    ))
                    &&& (r is Ok || r matches Err(BundleError::InvalidName { .. }))
                }
            }),
            r is Ok ==> final(self).ctx.out@.len() > old(self).ctx.out@.len(),
            r is Ok ==> final(self).ctx.out@.subrange(0, old(self).ctx.out@.len() as int)
                == old(self).ctx.out@,
            r is Ok ==> final(self).ctx.out@.last() == '\n',
            final(self).ctx.problem_id == old(self).ctx.problem_id,
    {
        let mut entry = joined("src/bin/", self.ctx.problem_id.as_str());
        entry.append(".rs");
        proof {
            assert(entry@ == entry_file(self.ctx.problem_id@));
        }
        let file = match self.ctx.sources.get(entry.as_str()) {
            Some(Ok(f)) => f,
            Some(Err(message)) => {
                return Err(BundleError::ParseError { path: entry, message: message.clone() });
            },
            None => {
                return Err(BundleError::PathNotFound { path: entry });
            },
        };
        let ghost before = self.ctx.used_paths.state();
        scan_entry(&mut self.ctx.used_paths, &self.ctx.crates, &file.items);
        proof {
            lemma_inserts_keep_aliases(before, entry_paths(file.items@, self.ctx.crates.crates_map()));
        }
        let printed = match print_source(copy_file(file)) {
            Ok(p) => p,
            Err(e) => {
                return Err(e);
            },
        };
        let ghost before = self.ctx.out@;
        self.ctx.out.append(printed.as_str());
        self.ctx.out.append("\n");
        proof {
            reveal_strlit("\n");
            assert(self.ctx.out@.subrange(0, before.len() as int) =~= before);
        }
        Ok(())
    }

    fn expand_crates(&mut self) -> (r: Result<(), BundleError>)
        requires
            old(self).ctx.used_paths.wf(),
        ensures
            final(self).ctx.used_paths == old(self).ctx.used_paths,
            final(self).ctx.crates == old(self).ctx.crates,
            final(self).ctx.sources == old(self).ctx.sources,
            final(self).ctx.problem_id == old(self).ctx.problem_id,
            final(self).ctx.bundled@.len() >= old(self).ctx.bundled@.len(),
            r is Ok ==> strings_view(final(self).ctx.log@) == strings_view(old(self).ctx.log@)
                + expand_log(
                old(self).ctx.sources.files_map(),
                old(self).ctx.used_paths.paths_set(),
                old(self).ctx.crates.listed(),
                old(self).ctx.crates.listed().len() as int,
            ),
            r is Ok ==> strings_view(final(self).ctx.bundled@) == strings_view(old(self).ctx.bundled@)
                + bundled_names(
                old(self).ctx.sources.files_map(),
                old(self).ctx.used_paths.paths_set(),
                old(self).ctx.crates.listed(),
                old(self).ctx.crates.listed().len() as int,
            ),
            final(self).ctx.out@.len() >= old(self).ctx.out@.len(),
            final(self).ctx.out@.subrange(0, old(self).ctx.out@.len() as int) == old(self).ctx.out@,
            r matches Err(e) ==> e is Internal ==> !regex_compiles(crate_path_pattern())
                || !outer_attributes_parse(wrapper_attribute_text()),
            r matches Err(e) ==> e is InvalidName ==> exists|k: int| crate_prints_badly(old(self).ctx, k),
            r matches Err(e) ==> e is InvalidName || e is Internal || exists|k: int|
                0 <= k < old(self).ctx.crates.listed().len() && !crate_expandable(
                    old(self).ctx.sources.files_map(),
                    old(self).ctx.used_paths.paths_set(),
                    old(self).ctx.used_paths.hits_set(),
                    (#[trigger] old(self).ctx.crates.listed()[k]).0@,
                    old(self).ctx.crates.listed()[k].1@,
                    old(self).ctx.sources.recorded(),
                ),
            r is Ok ==> forall|a: int|
                old(self).ctx.bundled@.len() <= a < final(self).ctx.bundled@.len() ==> {
                    &&& old(self).ctx.used_paths.paths_set().contains(
                        (#[trigger] final(self).ctx.bundled@[a])@,
                    )
                    &&& old(self).ctx.crates.crates_map().contains_key(final(self).ctx.bundled@[a]@)
                },
            r is Ok ==> forall|a: int, b: int|
                old(self).ctx.bundled@.len() <= a < b < final(self).ctx.bundled@.len() ==> (
                #[trigger] final(self).ctx.bundled@[a])@ != (#[trigger] final(self).ctx.bundled@[b])@,
    {
        let list = self.ctx.crates.entries_list();
        proof {
            lemma_live_entries_distinct_in(&self.ctx.crates);
        }
        let depth = self.ctx.sources.recorded_count();
        let start = self.ctx.bundled.len();
        let ghost files = self.ctx.sources.files_map();
        let ghost ps = self.ctx.used_paths.paths_set();
        let ghost hs = self.ctx.used_paths.hits_set();
        let ghost mut origin: Seq<int> = Seq::empty();
        let mut k: usize = 0;
        while k < list.len()
            invariant
                k <= list@.len(),
                list@ == self.ctx.crates.listed(),
                files == self.ctx.sources.files_map(),
                ps == self.ctx.used_paths.paths_set(),
                hs == self.ctx.used_paths.hits_set(),
                depth == self.ctx.sources.recorded(),
                forall|a: int, b: int|
                    0 <= a < b < list@.len() ==> (#[trigger] list@[a]).0@ != (#[trigger] list@[b]).0@,
                forall|a: int|
                    0 <= a < list@.len() ==> self.ctx.crates.crates_map().contains_key(
                        (#[trigger] list@[a]).0@,
                    ),
                self.ctx.used_paths == old(self).ctx.used_paths,
                self.ctx.crates == old(self).ctx.crates,
                self.ctx.sources == old(self).ctx.sources,
                self.ctx.problem_id == old(self).ctx.problem_id,
                self.ctx.out@.len() >= old(self).ctx.out@.len(),
                self.ctx.out@.subrange(0, old(self).ctx.out@.len() as int) == old(self).ctx.out@,
                start == old(self).ctx.bundled@.len(),
                self.ctx.bundled@.len() >= start,
                forall|a: int| 0 <= a < start ==> #[trigger] self.ctx.bundled@[a] == old(self).ctx.bundled@[a],
                strings_view(self.ctx.bundled@) == strings_view(old(self).ctx.bundled@) + bundled_names(files, ps, list@, k as int),
                strings_view(self.ctx.log@) == strings_view(old(self).ctx.log@) + expand_log(files, ps, list@, k as int),
                origin.len() == self.ctx.bundled@.len() - start,
                forall|a: int|
                    0 <= a < origin.len() ==> {
                        &&& 0 <= #[trigger] origin[a] < k
                        &&& self.ctx.bundled@[start + a]@ == list@[origin[a]].0@
                        &&& self.ctx.used_paths.paths_set().contains(list@[origin[a]].0@)
                    },
                forall|a: int, b: int| 0 <= a < b < origin.len() ==> #[trigger] origin[a] < #[trigger] origin[b],
            decreases list.len() - k,
        {
            let name = &list[k].0;
            let dir = &list[k].1;
            let ghost names_before = bundled_names(files, ps, list@, k as int);
            let ghost log_before = self.ctx.log@;
            let ghost lines_before = expand_log(files, ps, list@, k as int);
            if !self.ctx.used_paths.contains_path(name.as_str()) {
                self.ctx.log.push(joined("Ignoring unused crate: ", name.as_str()));
                proof {
                    assert(strings_view(self.ctx.log@) =~= strings_view(log_before).push("Ignoring unused crate: "@ + name@));
                    assert(strings_view(old(self).ctx.log@) + lines_before.push("Ignoring unused crate: "@ + name@) =~= (strings_view(old(self).ctx.log@) + lines_before).push("Ignoring unused crate: "@ + name@));
                }
            } else {
                self.ctx.log.push(joined("Processing crate: ", name.as_str()));
                let ghost log_mid = self.ctx.log@;
                proof {
                    assert(strings_view(log_mid) =~= strings_view(log_before).push("Processing crate: "@ + name@));
                }
                let lib = crate_lib_file(dir);
                match self.ctx.sources.get(lib.as_str()) {
                    Some(parsed) => {
                        let file = match parsed {
                            Ok(f) => f,
                            Err(message) => {
                                return Err(BundleError::ParseError { path: lib, message: message.clone() });
                            },
                        };
                        let state = ExpandMods {
                            crate_name: name.clone(),
                            path: crate_src_dir(dir),
                            import_path: name.clone(),
                        };
                        let items = expand_items(
                            &self.ctx.used_paths,
                            &self.ctx.sources,
                            &file.items,
                            &state,
                            depth,
                        )?;
                        let mut attrs = copy_attrs(&file.attrs);
                        strip_attributes(&mut attrs);
                        let shebang = match &file.shebang {
                            Some(s) => Some(s.clone()),
                            None => None,
                        };
                        let allow = wrapper_attributes()?;
                        let ghost out_items = items@;
                        let wrapped = wrap_crate(name, shebang, attrs, items, allow);
                        let printed = match print_source(wrapped) {
                            Ok(p) => p,
                            Err(e) => {
                                proof {
                                    let w = wrapped.items@;
                                    assert(w.drop_last() =~= Seq::<SourceItem>::empty());
                                    assert(!items_names_ok(w, 1));
                                    assert(items_names_ok(w, 1) == (items_names_ok(w, 0) && item_names_ok(w[0])));
                                    assert(!item_names_ok(w[0]));
                                    if is_identifier(name@) {
                                        assert(!items_names_ok(out_items, out_items.len() as int));
                                        assert(expanded_items(files, out_items, file.items@, name@, src_dir(dir@), ps, hs, depth as nat));
                                    }
                                    assert(crate_prints_badly(old(self).ctx, k as int));
                                }
                                return Err(e);
                            },
                        };
                        let text = match post_process_output_string(name.as_str(), printed.as_str()) {
                            Some(t) => t,
                            None => {
                                return Err(BundleError::Internal { message: String::from_str("the crate path pattern does not compile") });
                            },
                        };
                        let ghost out_before = self.ctx.out@;
                        self.ctx.out.append(text.as_str());
                        self.ctx.out.append("\n");
                        proof {
                            assert(self.ctx.out@.subrange(0, old(self).ctx.out@.len() as int) =~= out_before.subrange(0, old(self).ctx.out@.len() as int));
                        }
                        let ghost before = self.ctx.bundled@;
                        self.ctx.bundled.push(name.clone());
                        proof {
                            let nb = self.ctx.bundled@;
                            let old_origin = origin;
                            origin = origin.push(k as int);
                            assert forall|a: int| 0 <= a < start implies #[trigger] nb[a] == old(self).ctx.bundled@[a] by {
                                assert(nb[a] == before[a]);
                            }
                            assert forall|a: int| 0 <= a < origin.len() implies {
                                &&& 0 <= #[trigger] origin[a] < k + 1
                                &&& nb[start + a]@ == list@[origin[a]].0@
                                &&& self.ctx.used_paths.paths_set().contains(list@[origin[a]].0@)
                            } by {
                                if a < old_origin.len() {
                                    assert(origin[a] == old_origin[a]);
                                    assert(nb[start + a] == before[start + a]);
                                }
                            }
                            assert(strings_view(nb) =~= strings_view(before).push(name@));
                            let l1 = "Processing crate: "@ + name@;
                            assert(strings_view(old(self).ctx.log@) + lines_before.push(l1) =~= (strings_view(old(self).ctx.log@) + lines_before).push(l1));
                            assert(bundled_names(files, ps, list@, k + 1) == names_before.push(name@));
                            assert(strings_view(old(self).ctx.bundled@) + names_before.push(name@) =~= (strings_view(old(self).ctx.bundled@) + names_before).push(name@));
                        }
                    },
                    None => {
                        self.ctx.log.push(joined("Library file not found, skipping crate: ", name.as_str()));
                        proof {
                            let l1 = "Processing crate: "@ + name@;
                            let l2 = "Library file not found, skipping crate: "@ + name@;
                            assert(strings_view(self.ctx.log@) =~= strings_view(log_mid).push(l2));
                            assert(strings_view(old(self).ctx.log@) + lines_before.push(l1).push(l2) =~= (strings_view(old(self).ctx.log@) + lines_before).push(l1).push(l2));
                        }
                    },
                }
            }
            k += 1;
        }
        proof {
            let fb = self.ctx.bundled@;
            assert forall|a: int| start <= a < fb.len() implies {
                &&& old(self).ctx.used_paths.paths_set().contains((#[trigger] fb[a])@)
                &&& old(self).ctx.crates.crates_map().contains_key(fb[a]@)
            } by {
                let o = origin[a - start];
                assert(fb[start + (a - start)] == fb[a]);
                assert(self.ctx.crates.crates_map().contains_key(list@[o].0@));
            }
            assert forall|a: int, b: int| start <= a < b < fb.len() implies (#[trigger] fb[a])@
                != (#[trigger] fb[b])@ by {
                let oa = origin[a - start];
                let ob = origin[b - start];
                assert(fb[start + (a - start)] == fb[a]);
                assert(fb[start + (b - start)] == fb[b]);
                assert(oa < ob);
            }
        }
        Ok(())
    }
}

/// The text of the wrapper module's attributes.
pub open spec fn wrapper_attribute_text() -> Seq<char> {
    "#[allow(dead_code)]\n#[allow(unused_imports)]\n#[allow(unused_macros)]"@
}

/// The attributes of a crate's wrapper module: `#[allow(dead_code)]`,
/// `#[allow(unused_imports)]` and `#[allow(unused_macros)]`, parsed from
/// their text.
pub fn wrapper_attributes() -> (r: Result<Vec<Attr>, BundleError>)
    ensures
        r matches Err(e) ==> e is Internal,
        r is Ok <==> outer_attributes_parse(wrapper_attribute_text()),
{
    let text = "#[allow(dead_code)]\n#[allow(unused_imports)]\n#[allow(unused_macros)]";
    assert(text@ == wrapper_attribute_text());
    match parse_outer_attributes(text) {
        Ok(a) => Ok(attrs_from_syntax(a)),
        Err(e) => Err(BundleError::Internal { message: error_message(&e) }),
    }
}

/// The crate's items inlined into one module named after it, which carries
/// the attributes `allow`.
pub fn wrap_crate(
    crate_name: &String,
    shebang: Option<String>,
    attrs: Vec<Attr>,
    items: Vec<SourceItem>,
    allow: Vec<Attr>,
) -> (r: SourceFile)
    ensures
        r.shebang == shebang,
        r.attrs == attrs,
        r.items@.len() == 1,
        r.items@[0] matches SourceItem::Mod(m) && m.ident == *crate_name && m.content == Some(items)
            && m.vis is Inherited && !m.unsafety && m.attrs == allow,
{
    let module = ModuleItem {
        attrs: allow,
        vis: Vis::Inherited,
        unsafety: false,
        ident: crate_name.clone(),
        content: Some(items),
    };
    SourceFile { shebang, attrs, items: vec![SourceItem::Mod(module)] }
}

/// Inserting paths changes no alias.
proof fn lemma_inserts_keep_aliases(s: IndexState, ps: Seq<Seq<char>>)
    ensures
        state_after_inserts(s, ps).aliases == s.aliases,
    decreases ps.len(),
{
    if ps.len() > 0 {
        lemma_inserts_keep_aliases(s, ps.drop_last());
    }
}

proof fn lemma_live_entries_distinct_in(crates: &Crates)
    ensures
        forall|a: int, b: int|
            0 <= a < b < crates.listed().len() ==> (#[trigger] crates.listed()[a]).0@
                != (#[trigger] crates.listed()[b]).0@,
        forall|a: int|
            0 <= a < crates.listed().len() ==> crates.crates_map().contains_key(
                (#[trigger] crates.listed()[a]).0@,
            ),
{
    crates.lemma_listed_in_map();
}

/// Whether `s` is a canonical path.
pub fn is_canonical_text(s: &str) -> (r: bool)
    ensures
        r == is_canonical(s@),
{
    let n = s.unicode_len();
    if n == 0 {
        return false;
    }
    if s.get_char(0) == '/' || s.get_char(n - 1) == '/' {
        return false;
    }
    let mut i: usize = 0;
    while i + 1 < n
        invariant
            n == s@.len(),
            n > 0,
            i < n,
            forall|k: int| 0 <= k < i && #[trigger] s@[k] == '/' ==> s@[k + 1] != '/',
        decreases n - i,
    {
        if s.get_char(i) == '/' && s.get_char(i + 1) == '/' {
            return false;
        }
        i += 1;
    }
    true
}

/// Whether every string is a path segment.
pub fn segments_text(v: &Vec<String>) -> (r: bool)
    ensures
        r == all_segments(strings_view(v@)),
{
    let mut i: usize = 0;
    while i < v.len()
        invariant
            i <= v@.len(),
            forall|k: int| 0 <= k < i ==> is_segment(#[trigger] strings_view(v@)[k]),
        decreases v.len() - i,
    {
        let s = v[i].as_str();
        let n = s.unicode_len();
        if n == 0 {
            assert(!is_segment(strings_view(v@)[i as int]));
            return false;
        }
        let mut c: usize = 0;
        while c < n
            invariant
                c <= n,
                i < v@.len(),
                n == s@.len(),
                s@ == v@[i as int]@,
                forall|m: int| 0 <= m < c ==> s@[m] != '/',
            decreases n - c,
        {
            if s.get_char(c) == '/' {
                assert(!is_segment(strings_view(v@)[i as int]));
                return false;
            }
            c += 1;
        }
        assert(is_segment(strings_view(v@)[i as int]));
        i += 1;
    }
    true
}

} // verus!
