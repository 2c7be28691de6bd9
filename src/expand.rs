//! Library expansion: the items kept at each level of a used crate, and the
//! recursive expansion of its used modules.

use vstd::prelude::*;
use crate::error::BundleError;
use crate::imports::{
    alias_and_target, extract_imported_paths, flat_trees, flatten_imported_paths, has_test_cfg,
    is_pub_use, is_single_use, is_test_module, leaf_paths, paths_view, strings_view,
    tranform_alias_and_fqn,
};
use crate::path_index::ParsedPaths;
use crate::phases::ExpandMods;
use crate::source_tree::{load_mod, module_source, Parsed, SourceTree};
use crate::syntax::{copy_attrs, copy_tree, copy_vis, tree_view, Attr, ImportTree, ModuleItem, SourceItem, UseItem};

verus! {

broadcast use vstd::seq::axiom_seq_subrange_decreases;

/// `<ip>/<name>`, or `name` under an empty import path.
pub open spec fn child_path(ip: Seq<char>, name: Seq<char>) -> Seq<char> {
    if ip.len() == 0 {
        name
    } else {
        ip + seq!['/'] + name
    }
}

/// What filtering keeps of an item: the item itself (by its position), or a
/// single-leaf `pub use` item of the given tree.
pub enum Kept {
    Item(int),
    Single(ImportTree),
}

/// The single-leaf tree's alias, derived under `ip`, was met.
pub open spec fn alias_hit(t: ImportTree, ip: Seq<char>, hits: Set<Seq<char>>) -> bool {
    let lp = leaf_paths(t, Seq::empty());
    &&& lp.len() > 0
    &&& lp[0].len() > 0
    &&& hits.contains(alias_and_target(lp[0].last(), ip, lp[0]).0)
}

/// The single-leaf trees whose alias was met, in order.
pub open spec fn kept_singles(ts: Seq<ImportTree>, ip: Seq<char>, hits: Set<Seq<char>>) -> Seq<Kept>
    decreases ts.len(),
{
    if ts.len() == 0 {
        Seq::empty()
    } else {
        let prev = kept_singles(ts.drop_last(), ip, hits);
        if alias_hit(ts.last(), ip, hits) {
            prev.push(Kept::Single(ts.last()))
        } else {
            prev
        }
    }
}

/// What filtering keeps of the item at position `i`: a test module or a
/// module whose path is unused goes; a `pub use` becomes its single-leaf
/// items whose alias was met; anything else stays.
pub open spec fn item_plan(
    item: SourceItem,
    i: int,
    ip: Seq<char>,
    paths: Set<Seq<char>>,
    hits: Set<Seq<char>>,
) -> Seq<Kept> {
    match item {
        SourceItem::Mod(m) => if has_test_cfg(m.attrs@) || !paths.contains(child_path(ip, m.ident@)) {
            Seq::empty()
        } else {
            seq![Kept::Item(i)]
        },
        SourceItem::Use(u) => if u.vis is Public {
            kept_singles(flat_trees(u.tree, Seq::empty()), ip, hits)
        } else {
            seq![Kept::Item(i)]
        },
        SourceItem::Other(_) => seq![Kept::Item(i)],
    }
}

/// What filtering keeps of the first `k` items, in order.
pub open spec fn filter_plan(
    items: Seq<SourceItem>,
    k: int,
    ip: Seq<char>,
    paths: Set<Seq<char>>,
    hits: Set<Seq<char>>,
) -> Seq<Kept>
    decreases k,
{
    if k <= 0 || k > items.len() {
        Seq::empty()
    } else {
        filter_plan(items, k - 1, ip, paths, hits) + item_plan(items[k - 1], k - 1, ip, paths, hits)
    }
}

/// `it` is what the plan entry `k` stands for.
pub open spec fn entry_made(k: Kept, it: SourceItem, items: Seq<SourceItem>) -> bool {
    match k {
        Kept::Item(i) => 0 <= i < items.len() && it == items[i],
        Kept::Single(t) => it matches SourceItem::Use(u) && is_single_use(u, t),
    }
}

/// `out` is what expansion makes of the plan entry `k`: a kept module with
/// its name, visibility and kept attributes (its content expanded), any
/// other kept item unchanged, or a single-leaf `pub use`.
pub open spec fn expansion_made(k: Kept, out: SourceItem, items: Seq<SourceItem>) -> bool {
    match k {
        Kept::Item(i) => 0 <= i < items.len() && match items[i] {
            SourceItem::Mod(m) => {
                &&& out matches SourceItem::Mod(o)
                &&& o.ident == m.ident
                &&& o.vis == m.vis
                &&& o.unsafety == m.unsafety
                &&& o.attrs@ == kept_attrs(m.attrs@)
            },
            _ => out == items[i],
        },
        Kept::Single(t) => out matches SourceItem::Use(u) && is_single_use(u, t),
    }
}

/// An attribute that bundling drops: documentation, `allow`, `cfg`, `warn`.
pub open spec fn is_dropped_attr(a: Attr) -> bool {
    a.name matches Some(n) && (n@ == seq!['d', 'o', 'c'] || n@ == seq!['a', 'l', 'l', 'o', 'w']
        || n@ == seq!['c', 'f', 'g'] || n@ == seq!['w', 'a', 'r', 'n'])
}

/// The attributes that bundling keeps, in order.
pub open spec fn kept_attrs(attrs: Seq<Attr>) -> Seq<Attr>
    decreases attrs.len(),
{
    if attrs.len() == 0 {
        Seq::empty()
    } else if is_dropped_attr(attrs.last()) {
        kept_attrs(attrs.drop_last())
    } else {
        kept_attrs(attrs.drop_last()).push(attrs.last())
    }
}

/// The output of expansion under `ip`: every module is used, carries no
/// dropped attribute and is inlined with pruned content; every `pub use` is a
/// single-leaf item whose alias was met.
pub open spec fn pruned_items(
    items: Seq<SourceItem>,
    ip: Seq<char>,
    paths: Set<Seq<char>>,
    hits: Set<Seq<char>>,
) -> bool
    decreases items, 1int,
{
    if items.len() == 0 {
        true
    } else {
        &&& pruned_items(items.subrange(0, items.len() - 1), ip, paths, hits)
        &&& pruned_item(items[items.len() - 1], ip, paths, hits)
    }
}

/// One item of the output of expansion under `ip`.
pub open spec fn pruned_item(
    item: SourceItem,
    ip: Seq<char>,
    paths: Set<Seq<char>>,
    hits: Set<Seq<char>>,
) -> bool
    decreases item, 0int,
{
    match item {
        SourceItem::Mod(m) => {
            &&& paths.contains(child_path(ip, m.ident@))
            &&& forall|i: int| 0 <= i < m.attrs@.len() ==> !is_dropped_attr(#[trigger] m.attrs@[i])
            &&& m.content is Some
            &&& pruned_items(m.content->0@, child_path(ip, m.ident@), paths, hits)
        },
        SourceItem::Use(u) => u.vis is Public ==> alias_hit(u.tree, ip, hits),
        SourceItem::Other(_) => true,
    }
}

/// Each entry of a plan comes from its item: a kept item is an unflagged,
/// used module, a private `use` or another item; a kept single-leaf tree had
/// its alias met.
pub proof fn lemma_plan_entry(
    items: Seq<SourceItem>,
    k: int,
    ip: Seq<char>,
    paths: Set<Seq<char>>,
    hits: Set<Seq<char>>,
    j: int,
)
    requires
        0 <= j < filter_plan(items, k, ip, paths, hits).len(),
    ensures
        filter_plan(items, k, ip, paths, hits)[j] matches Kept::Item(i) ==> {
            &&& 0 <= i < k
            &&& i < items.len()
            &&& items[i] matches SourceItem::Mod(m) ==> !has_test_cfg(m.attrs@) && paths.contains(
                child_path(ip, m.ident@),
            )
            &&& items[i] matches SourceItem::Use(u) ==> !(u.vis is Public)
        },
        filter_plan(items, k, ip, paths, hits)[j] matches Kept::Single(t) ==> alias_hit(t, ip, hits),
    decreases k,
{
    if k <= 0 || k > items.len() {
    } else {
        let prev = filter_plan(items, k - 1, ip, paths, hits);
        let cur = item_plan(items[k - 1], k - 1, ip, paths, hits);
        if j < prev.len() {
            lemma_plan_entry(items, k - 1, ip, paths, hits, j);
            assert(filter_plan(items, k, ip, paths, hits)[j] == prev[j]);
        } else {
            assert(filter_plan(items, k, ip, paths, hits)[j] == cur[j - prev.len()]);
            match items[k - 1] {
                SourceItem::Use(u) => {
                    if u.vis is Public {
                        lemma_kept_singles_hit(flat_trees(u.tree, Seq::empty()), ip, hits, j - prev.len());
                    }
                },
                _ => {},
            }
        }
    }
}

pub proof fn lemma_kept_singles_hit(ts: Seq<ImportTree>, ip: Seq<char>, hits: Set<Seq<char>>, j: int)
    requires
        0 <= j < kept_singles(ts, ip, hits).len(),
    ensures
        kept_singles(ts, ip, hits)[j] matches Kept::Single(t) && alias_hit(t, ip, hits),
    decreases ts.len(),
{
    if ts.len() > 0 {
        let prev = kept_singles(ts.drop_last(), ip, hits);
        if j < prev.len() {
            lemma_kept_singles_hit(ts.drop_last(), ip, hits, j);
        }
    }
}

/// `<ip>/<name>`, or `name` under an empty import path.
pub fn child_path_text(ip: &String, name: &String) -> (r: String)
    ensures
        r@ == child_path(ip@, name@),
{
    if ip.as_str().unicode_len() == 0 {
        name.clone()
    } else {
        let mut p = ip.clone();
        p.append("/");
        p.append(name.as_str());
        proof {
            reveal_strlit("/");
            assert("/"@ =~= seq!['/']);
        }
        p
    }
}

/// Whether the module `name` declared under `import_path` is used.
pub fn is_used_in_binary(index: &ParsedPaths, import_path: &String, name: &String) -> (r: bool)
    ensures
        r == index.paths_set().contains(child_path(import_path@, name@)),
{
    let path = child_path_text(import_path, name);
    index.contains_path(path.as_str())
}

/// Drops the attributes that bundling does not keep.
pub fn strip_attributes(attrs: &mut Vec<Attr>)
    ensures
        final(attrs)@ == kept_attrs(old(attrs)@),
{
    let ghost orig = attrs@;
    let doc = String::from_str("doc");
    let allow = String::from_str("allow");
    let cfg = String::from_str("cfg");
    let warn = String::from_str("warn");
    proof {
        reveal_strlit("doc");
        reveal_strlit("allow");
        reveal_strlit("cfg");
        reveal_strlit("warn");
        assert(doc@ =~= seq!['d', 'o', 'c']);
        assert(allow@ =~= seq!['a', 'l', 'l', 'o', 'w']);
        assert(cfg@ =~= seq!['c', 'f', 'g']);
        assert(warn@ =~= seq!['w', 'a', 'r', 'n']);
        assert(orig.subrange(0, 0) =~= Seq::<Attr>::empty());
    }
    let total = attrs.len();
    let mut out: Vec<Attr> = Vec::new();
    let mut i: usize = 0;
    while attrs.len() > 0
        invariant
            i + attrs@.len() == orig.len(),
            orig.len() == total,
            attrs@ == orig.subrange(i as int, orig.len() as int),
            out@ == kept_attrs(orig.subrange(0, i as int)),
            doc@ == seq!['d', 'o', 'c'],
            allow@ == seq!['a', 'l', 'l', 'o', 'w'],
            cfg@ == seq!['c', 'f', 'g'],
            warn@ == seq!['w', 'a', 'r', 'n'],
        decreases attrs.len(),
    {
        let a = attrs.remove(0);
        proof {
            assert(a == orig[i as int]);
            assert(orig.subrange(0, i + 1).drop_last() =~= orig.subrange(0, i as int));
        }
        let dropped = match &a.name {
            Some(n) => *n == doc || *n == allow || *n == cfg || *n == warn,
            None => false,
        };
        if !dropped {
            out.push(a);
        }
        i += 1;
    }
    proof {
        assert(orig.subrange(0, i as int) =~= orig);
    }
    *attrs = out;
}

/// Keeps of `items` what bundling keeps at this level: modules that are not
/// test modules and whose path is used, the single-leaf items of each
/// `pub use` whose alias was met, and every other item.
pub fn filter_file_items(index: &ParsedPaths, items: &mut Vec<SourceItem>, import_path: &String)
    ensures
        final(items)@.len() == filter_plan(
            old(items)@,
            old(items)@.len() as int,
            import_path@,
            index.paths_set(),
            index.hits_set(),
        ).len(),
        forall|j: int|
            0 <= j < final(items)@.len() ==> entry_made(
                filter_plan(
                    old(items)@,
                    old(items)@.len() as int,
                    import_path@,
                    index.paths_set(),
                    index.hits_set(),
                )[j],
                #[trigger] final(items)@[j],
                old(items)@,
            ),
{
    let ghost orig = items@;
    let ghost ps = index.paths_set();
    let ghost hs = index.hits_set();
    let ghost ip = import_path@;
    let total = items.len();
    let mut out: Vec<SourceItem> = Vec::new();
    let mut i: usize = 0;
    while items.len() > 0
        invariant
            i + items@.len() == orig.len(),
            orig.len() == total,
            items@ == orig.subrange(i as int, orig.len() as int),
            ps == index.paths_set(),
            hs == index.hits_set(),
            ip == import_path@,
            out@.len() == filter_plan(orig, i as int, ip, ps, hs).len(),
            forall|j: int|
                0 <= j < out@.len() ==> entry_made(
                    filter_plan(orig, i as int, ip, ps, hs)[j],
                    #[trigger] out@[j],
                    orig,
                ),
        decreases items.len(),
    {
        let item = items.remove(0);
        let ghost before = out@;
        let ghost prev_plan = filter_plan(orig, i as int, ip, ps, hs);
        let ghost cur_plan = item_plan(orig[i as int], i as int, ip, ps, hs);
        proof {
            assert(item == orig[i as int]);
            assert(filter_plan(orig, i + 1, ip, ps, hs) == prev_plan + cur_plan);
        }
        match item {
            SourceItem::Mod(m) => {
                if !is_test_module(&m) && is_used_in_binary(index, import_path, &m.ident) {
                    out.push(SourceItem::Mod(m));
                    proof {
                        assert(cur_plan == seq![Kept::Item(i as int)]);
                        assert(entry_made(cur_plan[0], out@[before.len() as int], orig));
                    }
                } else {
                    assert(cur_plan.len() == 0);
                }
            },
            SourceItem::Use(u) => {
                if is_pub_use(&u) {
                    keep_used_singles(index, &u.tree, import_path, &mut out);
                    proof {
                        assert forall|j: int| 0 <= j < cur_plan.len() implies entry_made(
                            cur_plan[j],
                            #[trigger] out@[before.len() + j],
                            orig,
                        ) by {
                            assert(entry_made(cur_plan[j], out@[before.len() + j], Seq::empty()));
                        }
                    }
                } else {
                    out.push(SourceItem::Use(u));
                    proof {
                        assert(cur_plan == seq![Kept::Item(i as int)]);
                        assert(entry_made(cur_plan[0], out@[before.len() as int], orig));
                    }
                }
            },
            SourceItem::Other(o) => {
                out.push(SourceItem::Other(o));
                proof {
                    assert(cur_plan == seq![Kept::Item(i as int)]);
                    assert(entry_made(cur_plan[0], out@[before.len() as int], orig));
                }
            },
        }
        proof {
            let np = prev_plan + cur_plan;
            assert(out@.len() == before.len() + cur_plan.len());
            assert forall|j: int| 0 <= j < out@.len() implies entry_made(np[j], #[trigger] out@[j], orig) by {
                if j < before.len() {
                    assert(out@[j] == before[j]);
                    assert(np[j] == prev_plan[j]);
                } else {
                    assert(np[j] == cur_plan[j - before.len()]);
                    let jj = j - before.len();
                    assert(out@[before.len() + jj] == out@[j]);
                }
            }
        }
        i += 1;
    }
    *items = out;
}

/// Appends the single-leaf items of the `pub use` tree `tree` whose alias,
/// derived under `import_path`, was met.
fn keep_used_singles(
    index: &ParsedPaths,
    tree: &ImportTree,
    import_path: &String,
    out: &mut Vec<SourceItem>,
)
    ensures
        final(out)@.len() == old(out)@.len() + kept_singles(
            flat_trees(*tree, Seq::empty()),
            import_path@,
            index.hits_set(),
        ).len(),
        forall|j: int| 0 <= j < old(out)@.len() ==> #[trigger] final(out)@[j] == old(out)@[j],
        forall|j: int|
            0 <= j < kept_singles(flat_trees(*tree, Seq::empty()), import_path@, index.hits_set()).len()
                ==> entry_made(
                kept_singles(flat_trees(*tree, Seq::empty()), import_path@, index.hits_set())[j],
                #[trigger] final(out)@[old(out)@.len() + j],
                Seq::empty(),
            ),
{
    let ghost flat = flat_trees(*tree, Seq::empty());
    let ghost hs = index.hits_set();
    let ghost ip = import_path@;
    let ghost start = out@.len();
    let singles = flatten_imported_paths(tree, Vec::new());
    proof {
        assert(crate::imports::path_idents(Seq::<ImportTree>::empty()) =~= Seq::<String>::empty());
        assert(flat.subrange(0, 0) =~= Seq::<ImportTree>::empty());
    }
    let ghost all = singles@;
    let total = singles.len();
    let mut rest = singles;
    let mut k: usize = 0;
    while rest.len() > 0
        invariant
            k + rest@.len() == all.len(),
            all.len() == total,
            all.len() == flat.len(),
            rest@ == all.subrange(k as int, all.len() as int),
            forall|m: int| 0 <= m < all.len() ==> is_single_use(#[trigger] all[m], flat[m]),
            hs == index.hits_set(),
            ip == import_path@,
            start == old(out)@.len(),
            out@.len() == start + kept_singles(flat.subrange(0, k as int), ip, hs).len(),
            forall|j: int| 0 <= j < start ==> #[trigger] out@[j] == old(out)@[j],
            forall|j: int|
                0 <= j < kept_singles(flat.subrange(0, k as int), ip, hs).len() ==> entry_made(
                    kept_singles(flat.subrange(0, k as int), ip, hs)[j],
                    #[trigger] out@[start + j],
                    Seq::empty(),
                ),
        decreases rest.len(),
    {
        let u = rest.remove(0);
        proof {
            assert(u == all[k as int]);
            let ts = flat.subrange(0, k + 1);
            assert(ts.drop_last() =~= flat.subrange(0, k as int));
            assert(ts.last() == flat[k as int]);
        }
        let paths = extract_imported_paths(&u.tree, Vec::new());
        proof {
            assert(strings_view(Seq::<String>::empty()) =~= Seq::<Seq<char>>::empty());
        }
        let mut keep = false;
        if paths.len() > 0 && paths[0].len() > 0 {
            let first = &paths[0];
            let last = &first[first.len() - 1];
            proof {
                assert(paths_view(paths@)[0] == strings_view(first@));
                assert(strings_view(first@).last() == last@);
            }
            let (alias, _target) = tranform_alias_and_fqn(last.as_str(), import_path.as_str(), first.as_slice());
            keep = index.is_pub_use_used(alias.as_str());
        } else {
            proof {
                if paths@.len() > 0 {
                    assert(paths_view(paths@)[0] == strings_view(paths@[0]@));
                }
            }
        }
        let ghost before = out@;
        if keep {
            out.push(SourceItem::Use(u));
        }
        proof {
            let ks = kept_singles(flat.subrange(0, k + 1), ip, hs);
            assert forall|j: int| 0 <= j < start implies #[trigger] out@[j] == old(out)@[j] by {
                assert(out@[j] == before[j]);
            }
            assert forall|j: int| 0 <= j < ks.len() implies entry_made(ks[j], #[trigger] out@[start + j], Seq::empty()) by {
                let kp = kept_singles(flat.subrange(0, k as int), ip, hs);
                if j < kp.len() {
                    assert(out@[start + j] == before[start + j]);
                    assert(ks[j] == kp[j]);
                }
            }
        }
        k += 1;
    }
    proof {
        assert(flat.subrange(0, k as int) =~= flat);
    }
}

/// Expanding the first `n` of `items`, under `ip` in a file of `dir`,
/// succeeds: each kept declared-only module has a file that parsed, within
/// `depth` nested loads, and each kept module's content expands in turn.
pub open spec fn expandable_upto(
    files: Map<Seq<char>, Parsed>,
    items: Seq<SourceItem>,
    n: int,
    ip: Seq<char>,
    dir: Seq<char>,
    paths: Set<Seq<char>>,
    hits: Set<Seq<char>>,
    depth: nat,
) -> bool
    decreases depth, items, n,
{
    if n <= 0 || n > items.len() {
        true
    } else {
        &&& expandable_upto(files, items, n - 1, ip, dir, paths, hits, depth)
        &&& item_expandable(files, items[n - 1], ip, dir, paths, hits, depth)
    }
}

/// Expanding one item succeeds.
pub open spec fn item_expandable(
    files: Map<Seq<char>, Parsed>,
    item: SourceItem,
    ip: Seq<char>,
    dir: Seq<char>,
    paths: Set<Seq<char>>,
    hits: Set<Seq<char>>,
    depth: nat,
) -> bool
    decreases depth, item, 0int,
{
    match item {
        SourceItem::Mod(m) => {
            let child = child_path(ip, m.ident@);
            has_test_cfg(m.attrs@) || !paths.contains(child) || match m.content {
                Some(c) => expandable_upto(files, c@, c@.len() as int, child, dir, paths, hits, depth),
                None => depth > 0 && match module_source(files, dir, m.ident@) {
                    Some((d, p)) => match files[p] {
                        Ok(f) => expandable_upto(
                            files,
                            f.items@,
                            f.items@.len() as int,
                            child,
                            d,
                            paths,
                            hits,
                            (depth - 1) as nat,
                        ),
                        Err(_) => false,
                    },
                    None => false,
                },
            }
        },
        _ => true,
    }
}

/// `out` is the expansion of `items` under `ip` in a file of `dir`: one
/// item per entry of the filtering plan, each made as `entry_expanded` says.
pub open spec fn expanded_items(
    files: Map<Seq<char>, Parsed>,
    out: Seq<SourceItem>,
    items: Seq<SourceItem>,
    ip: Seq<char>,
    dir: Seq<char>,
    paths: Set<Seq<char>>,
    hits: Set<Seq<char>>,
    depth: nat,
) -> bool
    decreases depth, items, filter_plan(items, items.len() as int, ip, paths, hits).len() + 1,
{
    let plan = filter_plan(items, items.len() as int, ip, paths, hits);
    &&& out.len() == plan.len()
    &&& expanded_upto(files, out, items, plan, plan.len() as int, ip, dir, paths, hits, depth)
}

/// The first `n` items of `out` are made from their plan entries.
pub open spec fn expanded_upto(
    files: Map<Seq<char>, Parsed>,
    out: Seq<SourceItem>,
    items: Seq<SourceItem>,
    plan: Seq<Kept>,
    n: int,
    ip: Seq<char>,
    dir: Seq<char>,
    paths: Set<Seq<char>>,
    hits: Set<Seq<char>>,
    depth: nat,
) -> bool
    decreases depth, items, n,
{
    if n <= 0 || n > out.len() || n > plan.len() {
        true
    } else {
        &&& expanded_upto(files, out, items, plan, n - 1, ip, dir, paths, hits, depth)
        &&& entry_expanded(files, plan[n - 1], out[n - 1], items, ip, dir, paths, hits, depth)
    }
}

/// `o` is made from the plan entry `k`: a kept module keeps its name,
/// visibility and kept attributes, and its content is the expansion of its
/// body, or of the items of its file under the file's directory, under
/// `<ip>/<name>`; a kept private `use` is copied; any other kept item is
/// unchanged; a single-leaf `pub use` is as filtering made it.
pub open spec fn entry_expanded(
    files: Map<Seq<char>, Parsed>,
    k: Kept,
    o: SourceItem,
    items: Seq<SourceItem>,
    ip: Seq<char>,
    dir: Seq<char>,
    paths: Set<Seq<char>>,
    hits: Set<Seq<char>>,
    depth: nat,
) -> bool
    decreases depth, items, 0int,
{
    match k {
        Kept::Item(i) => 0 <= i < items.len() && match items[i] {
            SourceItem::Mod(m) => {
                let child = child_path(ip, m.ident@);
                &&& o matches SourceItem::Mod(om)
                &&& om.ident == m.ident
                &&& om.vis == m.vis
                &&& om.unsafety == m.unsafety
                &&& om.attrs@ == kept_attrs(m.attrs@)
                &&& om.content matches Some(oc)
                &&& match m.content {
                    Some(c) => expanded_items(files, oc@, c@, child, dir, paths, hits, depth),
                    None => depth > 0 && match module_source(files, dir, m.ident@) {
                        Some((d, p)) => match files[p] {
                            Ok(f) => expanded_items(
                                files,
                                oc@,
                                f.items@,
                                child,
                                d,
                                paths,
                                hits,
                                (depth - 1) as nat,
                            ),
                            Err(_) => false,
                        },
                        None => false,
                    },
                }
            },
            SourceItem::Use(u) => {
                &&& o matches SourceItem::Use(ou)
                &&& ou.vis == u.vis
                &&& ou.leading_colon == u.leading_colon
                &&& ou.attrs@ == u.attrs@
                &&& tree_view(ou.tree) == tree_view(u.tree)
            },
            SourceItem::Other(_) => o == items[i],
        },
        Kept::Single(t) => o matches SourceItem::Use(u) && is_single_use(u, t),
    }
}

proof fn lemma_expandable_upto_false(
    files: Map<Seq<char>, Parsed>,
    items: Seq<SourceItem>,
    k: int,
    n: int,
    ip: Seq<char>,
    dir: Seq<char>,
    paths: Set<Seq<char>>,
    hits: Set<Seq<char>>,
    depth: nat,
)
    requires
        0 <= k <= n <= items.len(),
        !expandable_upto(files, items, k, ip, dir, paths, hits, depth),
    ensures
        !expandable_upto(files, items, n, ip, dir, paths, hits, depth),
    decreases n,
{
    if n > k {
        lemma_expandable_upto_false(files, items, k, n - 1, ip, dir, paths, hits, depth);
    }
}

proof fn lemma_expanded_from_each(
    files: Map<Seq<char>, Parsed>,
    out: Seq<SourceItem>,
    items: Seq<SourceItem>,
    plan: Seq<Kept>,
    n: int,
    ip: Seq<char>,
    dir: Seq<char>,
    paths: Set<Seq<char>>,
    hits: Set<Seq<char>>,
    depth: nat,
)
    requires
        0 <= n <= out.len(),
        n <= plan.len(),
        forall|j: int|
            0 <= j < n ==> #[trigger] entry_expanded(files, plan[j], out[j], items, ip, dir, paths, hits, depth),
    ensures
        expanded_upto(files, out, items, plan, n, ip, dir, paths, hits, depth),
    decreases n,
{
    if n > 0 {
        lemma_expanded_from_each(files, out, items, plan, n - 1, ip, dir, paths, hits, depth);
        assert(entry_expanded(files, plan[n - 1], out[n - 1], items, ip, dir, paths, hits, depth));
        assert(expanded_upto(files, out, items, plan, n, ip, dir, paths, hits, depth) == (
        expanded_upto(files, out, items, plan, n - 1, ip, dir, paths, hits, depth)
            && entry_expanded(files, plan[n - 1], out[n - 1], items, ip, dir, paths, hits, depth)));
    }
}

/// Expands `items`, which stand under `state.import_path` in a file of
/// `state.path`: keeps what filtering keeps, strips the dropped attributes
/// of each kept module, and gives each kept module as content the expansion
/// of its body, or of its file's items, under `<import_path>/<name>`. At
/// most `depth` files are loaded along any chain of nested modules. It
/// succeeds exactly when every kept declared-only module has a file that
/// parsed, within that depth.
pub fn expand_items(
    index: &ParsedPaths,
    sources: &SourceTree,
    items: &Vec<SourceItem>,
    state: &ExpandMods,
    depth: usize,
) -> (r: Result<Vec<SourceItem>, BundleError>)
    ensures
        r matches Err(e) ==> e is ModuleCycle || e is PathNotFound || e is ParseError,
        r is Ok <==> expandable_upto(
            sources.files_map(),
            items@,
            items@.len() as int,
            state.import_path@,
            state.path@,
            index.paths_set(),
            index.hits_set(),
            depth as nat,
        ),
        r matches Ok(out) ==> {
            &&& expanded_items(
                sources.files_map(),
                out@,
                items@,
                state.import_path@,
                state.path@,
                index.paths_set(),
                index.hits_set(),
                depth as nat,
            )
            &&& pruned_items(out@, state.import_path@, index.paths_set(), index.hits_set())
        },
    decreases depth, *items,
{
    let ghost files = sources.files_map();
    let ghost ps = index.paths_set();
    let ghost hs = index.hits_set();
    let ghost ip = state.import_path@;
    let ghost dir = state.path@;
    let ghost orig = items@;
    let import_path = &state.import_path;
    let mut out: Vec<SourceItem> = Vec::new();
    let mut i: usize = 0;
    while i < items.len()
        invariant
            i <= orig.len(),
            orig == items@,
            files == sources.files_map(),
            ps == index.paths_set(),
            hs == index.hits_set(),
            ip == state.import_path@,
            dir == state.path@,
            import_path == &state.import_path,
            out@.len() == filter_plan(orig, i as int, ip, ps, hs).len(),
            forall|m: int|
                0 <= m < out@.len() ==> #[trigger] entry_expanded(
                    files,
                    filter_plan(orig, i as int, ip, ps, hs)[m],
                    out@[m],
                    orig,
                    ip,
                    dir,
                    ps,
                    hs,
                    depth as nat,
                ),
            forall|m: int| 0 <= m < out@.len() ==> #[trigger] pruned_item(out@[m], ip, ps, hs),
            expandable_upto(files, orig, i as int, ip, dir, ps, hs, depth as nat),
        decreases items.len() - i,
    {
        let ghost before = out@;
        let ghost prev_plan = filter_plan(orig, i as int, ip, ps, hs);
        let ghost cur_plan = item_plan(orig[i as int], i as int, ip, ps, hs);
        let ghost it = orig[i as int];
        proof {
            assert(filter_plan(orig, i + 1, ip, ps, hs) == prev_plan + cur_plan);
            lemma_plan_entries_shift(orig, i as int, ip, ps, hs);
        }
        match &items[i] {
            SourceItem::Mod(m) => {
                if !is_test_module(m) && is_used_in_binary(index, import_path, &m.ident) {
                    let child = child_path_text(import_path, &m.ident);
                    let expanded = match &m.content {
                        Some(c) => {
                            proof {
                                assert(decreases_to!(*items => items@));
                                assert(decreases_to!(items@ => it));
                                assert(decreases_to!(it => it->Mod_0));
                                assert(decreases_to!(it->Mod_0 => it->Mod_0.content));
                                assert(decreases_to!(it->Mod_0.content => it->Mod_0.content->0));
                            }
                            let inner = ExpandMods {
                                crate_name: state.crate_name.clone(),
                                path: state.path.clone(),
                                import_path: child,
                            };
                            match expand_items(index, sources, c, &inner, depth) {
                                Ok(e) => {
                                    proof {
                                        assert(item_expandable(files, it, ip, dir, ps, hs, depth as nat));
                                    }
                                    e
                                },
                                Err(e) => {
                                    proof {
                                        assert(!item_expandable(files, it, ip, dir, ps, hs, depth as nat));
                                        assert(!expandable_upto(files, orig, i + 1, ip, dir, ps, hs, depth as nat));
                                        lemma_expandable_upto_false(files, orig, i + 1, orig.len() as int, ip, dir, ps, hs, depth as nat);
                                    }
                                    return Err(e);
                                },
                            }
                        },
                        None => {
                            if depth == 0 {
                                proof {
                                    assert(!item_expandable(files, it, ip, dir, ps, hs, depth as nat));
                                        assert(!expandable_upto(files, orig, i + 1, ip, dir, ps, hs, depth as nat));
                                        lemma_expandable_upto_false(files, orig, i + 1, orig.len() as int, ip, dir, ps, hs, depth as nat);
                                }
                                return Err(BundleError::ModuleCycle { path: child });
                            }
                            let (child_dir, file_path) = match load_mod(sources, state.path.as_str(), m.ident.as_str()) {
                                Ok(found) => found,
                                Err(e) => {
                                    proof {
                                        assert(!item_expandable(files, it, ip, dir, ps, hs, depth as nat));
                                        assert(!expandable_upto(files, orig, i + 1, ip, dir, ps, hs, depth as nat));
                                        lemma_expandable_upto_false(files, orig, i + 1, orig.len() as int, ip, dir, ps, hs, depth as nat);
                                    }
                                    return Err(e);
                                },
                            };
                            match sources.get(file_path.as_str()) {
                                Some(Ok(file)) => {
                                    let inner = ExpandMods {
                                        crate_name: state.crate_name.clone(),
                                        path: child_dir,
                                        import_path: child,
                                    };
                                    match expand_items(index, sources, &file.items, &inner, depth - 1) {
                                        Ok(e) => {
                                            proof {
                                                assert(module_source(files, dir, m.ident@) is Some);
                                                assert(item_expandable(files, it, ip, dir, ps, hs, depth as nat));
                                            }
                                            e
                                        },
                                        Err(e) => {
                                            proof {
                                                assert(!item_expandable(files, it, ip, dir, ps, hs, depth as nat));
                                        assert(!expandable_upto(files, orig, i + 1, ip, dir, ps, hs, depth as nat));
                                        lemma_expandable_upto_false(files, orig, i + 1, orig.len() as int, ip, dir, ps, hs, depth as nat);
                                            }
                                            return Err(e);
                                        },
                                    }
                                },
                                Some(Err(message)) => {
                                    proof {
                                        assert(!item_expandable(files, it, ip, dir, ps, hs, depth as nat));
                                        assert(!expandable_upto(files, orig, i + 1, ip, dir, ps, hs, depth as nat));
                                        lemma_expandable_upto_false(files, orig, i + 1, orig.len() as int, ip, dir, ps, hs, depth as nat);
                                    }
                                    return Err(BundleError::ParseError { path: file_path, message: message.clone() });
                                },
                                None => {
                                    proof {
                                        assert(!item_expandable(files, it, ip, dir, ps, hs, depth as nat));
                                        assert(!expandable_upto(files, orig, i + 1, ip, dir, ps, hs, depth as nat));
                                        lemma_expandable_upto_false(files, orig, i + 1, orig.len() as int, ip, dir, ps, hs, depth as nat);
                                    }
                                    return Err(BundleError::PathNotFound { path: file_path });
                                },
                            }
                        },
                    };
                    let mut attrs = copy_attrs(&m.attrs);
                    strip_attributes(&mut attrs);
                    proof {
                        lemma_kept_attrs_clean(m.attrs@);
                    }
                    out.push(
                        SourceItem::Mod(
                            ModuleItem {
                                attrs,
                                vis: copy_vis(&m.vis),
                                unsafety: m.unsafety,
                                ident: m.ident.clone(),
                                content: Some(expanded),
                            },
                        ),
                    );
                    proof {
                        assert(cur_plan == seq![Kept::Item(i as int)]);
                    }
                } else {
                    assert(cur_plan.len() == 0);
                    assert(item_expandable(files, it, ip, dir, ps, hs, depth as nat));
                }
            },
            SourceItem::Use(u) => {
                if is_pub_use(u) {
                    keep_used_singles(index, &u.tree, import_path, &mut out);
                    proof {
                        assert forall|j: int| 0 <= j < cur_plan.len() implies pruned_item(
                            #[trigger] out@[before.len() + j],
                            ip,
                            ps,
                            hs,
                        ) by {
                            assert(entry_made(cur_plan[j], out@[before.len() + j], Seq::empty()));
                            lemma_kept_singles_hit(flat_trees(u.tree, Seq::empty()), ip, hs, j);
                        }
                    }
                } else {
                    out.push(
                        SourceItem::Use(
                            UseItem {
                                attrs: copy_attrs(&u.attrs),
                                vis: copy_vis(&u.vis),
                                leading_colon: u.leading_colon,
                                tree: copy_tree(&u.tree),
                            },
                        ),
                    );
                    proof {
                        assert(cur_plan == seq![Kept::Item(i as int)]);
                    }
                }
            },
            SourceItem::Other(o) => {
                out.push(SourceItem::Other(o.clone()));
                proof {
                    assert(cur_plan == seq![Kept::Item(i as int)]);
                }
            },
        }
        proof {
            let np = prev_plan + cur_plan;
            assert(out@.len() == before.len() + cur_plan.len());
            assert forall|j: int| 0 <= j < out@.len() implies #[trigger] entry_expanded(
                files,
                np[j],
                out@[j],
                orig,
                ip,
                dir,
                ps,
                hs,
                depth as nat,
            ) by {
                if j < before.len() {
                    assert(out@[j] == before[j]);
                    assert(np[j] == prev_plan[j]);
                } else {
                    assert(np[j] == cur_plan[j - before.len()]);
                    if it is Use && it->Use_0.vis is Public {
                        let jj = j - before.len();
                        assert(out@[before.len() + jj] == out@[j]);
                        assert(entry_made(cur_plan[jj], out@[before.len() + jj], Seq::empty()));
                    }
                }
            }
            assert forall|j: int| 0 <= j < out@.len() implies #[trigger] pruned_item(out@[j], ip, ps, hs) by {
                if j < before.len() {
                    assert(out@[j] == before[j]);
                } else if it is Use && it->Use_0.vis is Public {
                    let jj = j - before.len();
                    assert(out@[before.len() + jj] == out@[j]);
                }
            }
            assert(item_expandable(files, it, ip, dir, ps, hs, depth as nat));
            assert(expandable_upto(files, orig, i + 1, ip, dir, ps, hs, depth as nat) == (
            expandable_upto(files, orig, i as int, ip, dir, ps, hs, depth as nat)
                && item_expandable(files, orig[i as int], ip, dir, ps, hs, depth as nat)));
        }
        i += 1;
    }
    proof {
        let plan = filter_plan(orig, orig.len() as int, ip, ps, hs);
        lemma_expanded_from_each(files, out@, orig, plan, plan.len() as int, ip, dir, ps, hs, depth as nat);
        lemma_pruned_from_each(out@, ip, ps, hs);
    }
    Ok(out)
}

/// The plan of the first `i + 1` items extends that of the first `i`.
proof fn lemma_plan_entries_shift(
    items: Seq<SourceItem>,
    i: int,
    ip: Seq<char>,
    paths: Set<Seq<char>>,
    hits: Set<Seq<char>>,
)
    requires
        0 <= i < items.len(),
    ensures
        filter_plan(items, i + 1, ip, paths, hits) == filter_plan(items, i, ip, paths, hits)
            + item_plan(items[i], i, ip, paths, hits),
{
}

/// Items each of which is pruned are pruned.
pub proof fn lemma_pruned_from_each(
    items: Seq<SourceItem>,
    ip: Seq<char>,
    paths: Set<Seq<char>>,
    hits: Set<Seq<char>>,
)
    requires
        forall|j: int| 0 <= j < items.len() ==> #[trigger] pruned_item(items[j], ip, paths, hits),
    ensures
        pruned_items(items, ip, paths, hits),
    decreases items.len(),
{
    if items.len() > 0 {
        let init = items.subrange(0, items.len() - 1);
        assert forall|j: int| 0 <= j < init.len() implies #[trigger] pruned_item(init[j], ip, paths, hits) by {
            assert(init[j] == items[j]);
        }
        lemma_pruned_from_each(init, ip, paths, hits);
        assert(pruned_item(items[items.len() - 1], ip, paths, hits));
        assert(pruned_items(items, ip, paths, hits) == (pruned_items(init, ip, paths, hits)
            && pruned_item(items[items.len() - 1], ip, paths, hits)));
    }
}

/// No kept attribute is one that bundling drops.
pub proof fn lemma_kept_attrs_clean(attrs: Seq<Attr>)
    ensures
        forall|i: int|
            0 <= i < kept_attrs(attrs).len() ==> !is_dropped_attr(#[trigger] kept_attrs(attrs)[i]),
    decreases attrs.len(),
{
    if attrs.len() > 0 {
        let prev = kept_attrs(attrs.drop_last());
        lemma_kept_attrs_clean(attrs.drop_last());
        if !is_dropped_attr(attrs.last()) {
            let k = kept_attrs(attrs);
            assert(k == prev.push(attrs.last()));
            assert forall|i: int| 0 <= i < k.len() implies !is_dropped_attr(#[trigger] k[i]) by {
                if i < prev.len() {
                    assert(k[i] == prev[i]);
                }
            }
        }
    }
}

/// A module flagged `#[cfg(test)]` is not kept: no entry of the plan stands
/// for it, so it is absent from the filtered items.
pub proof fn lemma_test_module_dropped(
    items: Seq<SourceItem>,
    ip: Seq<char>,
    paths: Set<Seq<char>>,
    hits: Set<Seq<char>>,
    i: int,
    j: int,
)
    requires
        0 <= i < items.len(),
        items[i] matches SourceItem::Mod(m) && has_test_cfg(m.attrs@),
        0 <= j < filter_plan(items, items.len() as int, ip, paths, hits).len(),
    ensures
        filter_plan(items, items.len() as int, ip, paths, hits)[j] != Kept::Item(i),
{
    lemma_plan_entry(items, items.len() as int, ip, paths, hits, j);
}

/// A `pub use` item survives filtering, as one or more single-leaf items, if
/// and only if the alias of at least one of its leaves was met.
pub proof fn lemma_pub_use_kept_iff_alias_met(
    item: SourceItem,
    i: int,
    ip: Seq<char>,
    paths: Set<Seq<char>>,
    hits: Set<Seq<char>>,
)
    requires
        item matches SourceItem::Use(u) && u.vis is Public,
    ensures
        item_plan(item, i, ip, paths, hits).len() > 0 <==> exists|k: int|
            0 <= k < flat_trees(item->Use_0.tree, Seq::empty()).len() && alias_hit(
                #[trigger] flat_trees(item->Use_0.tree, Seq::empty())[k],
                ip,
                hits,
            ),
{
    lemma_kept_singles_nonempty(flat_trees(item->Use_0.tree, Seq::empty()), ip, hits);
}

proof fn lemma_kept_singles_nonempty(ts: Seq<ImportTree>, ip: Seq<char>, hits: Set<Seq<char>>)
    ensures
        kept_singles(ts, ip, hits).len() > 0 <==> exists|k: int|
            0 <= k < ts.len() && alias_hit(#[trigger] ts[k], ip, hits),
    decreases ts.len(),
{
    if ts.len() > 0 {
        let init = ts.drop_last();
        lemma_kept_singles_nonempty(init, ip, hits);
        if exists|k: int| 0 <= k < init.len() && alias_hit(#[trigger] init[k], ip, hits) {
            let k = choose|k: int| 0 <= k < init.len() && alias_hit(#[trigger] init[k], ip, hits);
            assert(ts[k] == init[k]);
        }
        if exists|k: int| 0 <= k < ts.len() && alias_hit(#[trigger] ts[k], ip, hits) {
            let k = choose|k: int| 0 <= k < ts.len() && alias_hit(#[trigger] ts[k], ip, hits);
            if k < init.len() {
                assert(init[k] == ts[k]);
            }
        }
    }
}

} // verus!
