//! Reading `use` trees: their leaf paths, single-leaf re-wrapping, the
//! alias a re-export introduces, and the classification of items.

use vstd::prelude::*;
use crate::canonical::join_segments;
use crate::syntax::{Attr, ImportTree, ModuleItem, UseItem, Vis};

verus! {

/// The strings' contents.
pub open spec fn strings_view(v: Seq<String>) -> Seq<Seq<char>> {
    Seq::new(v.len(), |i: int| v[i]@)
}

/// The contents of each path of strings.
pub open spec fn paths_view(v: Seq<Vec<String>>) -> Seq<Seq<Seq<char>>> {
    Seq::new(v.len(), |i: int| strings_view(v[i]@))
}

/// The leaf paths of `t` under `prefix`, in order: a name or a rename adds its
/// (new) name to the prefix, a glob contributes the prefix itself.
pub open spec fn leaf_paths(t: ImportTree, prefix: Seq<Seq<char>>) -> Seq<Seq<Seq<char>>>
    decreases t, 0int,
{
    match t {
        ImportTree::Path { ident, tree } => leaf_paths(*tree, prefix.push(ident@)),
        ImportTree::Name { ident } => seq![prefix.push(ident@)],
        ImportTree::Rename { ident: _, rename } => seq![prefix.push(rename@)],
        ImportTree::Glob => seq![prefix],
        ImportTree::Group { items } => group_leaf_paths(items@, items@.len() as int, prefix),
    }
}

/// The leaf paths of the first `k` trees of a group, in order.
pub open spec fn group_leaf_paths(items: Seq<ImportTree>, k: int, prefix: Seq<Seq<char>>) -> Seq<
    Seq<Seq<char>>,
>
    decreases items, k,
{
    if k <= 0 || k > items.len() {
        Seq::empty()
    } else {
        group_leaf_paths(items, k - 1, prefix) + leaf_paths(items[k - 1], prefix)
    }
}

/// The identifiers of path entries.
pub open spec fn path_idents(prefix: Seq<ImportTree>) -> Seq<String> {
    Seq::new(prefix.len(), |i: int| prefix[i]->Path_ident)
}

/// `last` under the chain of path segments `idents`.
pub open spec fn wrap_tree(idents: Seq<String>, last: ImportTree) -> ImportTree
    decreases idents.len(),
{
    if idents.len() == 0 {
        last
    } else {
        wrap_tree(idents.drop_last(), ImportTree::Path { ident: idents.last(), tree: Box::new(last) })
    }
}

/// The single-leaf trees of `t` under the path segments `idents`, one per
/// leaf, in order.
pub open spec fn flat_trees(t: ImportTree, idents: Seq<String>) -> Seq<ImportTree>
    decreases t, 0int,
{
    match t {
        ImportTree::Path { ident, tree } => flat_trees(*tree, idents.push(ident)),
        ImportTree::Group { items } => group_flat_trees(items@, items@.len() as int, idents),
        _ => seq![wrap_tree(idents, t)],
    }
}

/// The single-leaf trees of the first `k` trees of a group, in order.
pub open spec fn group_flat_trees(items: Seq<ImportTree>, k: int, idents: Seq<String>) -> Seq<
    ImportTree,
>
    decreases items, k,
{
    if k <= 0 || k > items.len() {
        Seq::empty()
    } else {
        group_flat_trees(items, k - 1, idents) + flat_trees(items[k - 1], idents)
    }
}

/// A public `use` item of the single-leaf tree `t`, with no attributes.
pub open spec fn is_single_use(u: UseItem, t: ImportTree) -> bool {
    &&& u.tree == t
    &&& u.vis is Public
    &&& u.attrs@.len() == 0
    &&& !u.leading_colon
}

/// The leaf paths of each tree, re-extracted with an empty prefix and
/// concatenated.
pub open spec fn concat_leaf_paths(ts: Seq<ImportTree>) -> Seq<Seq<Seq<char>>>
    decreases ts.len(),
{
    if ts.len() == 0 {
        Seq::empty()
    } else {
        concat_leaf_paths(ts.drop_last()) + leaf_paths(ts.last(), Seq::empty())
    }
}

/// `std`
pub open spec fn std_word() -> Seq<char> {
    seq!['s', 't', 'd']
}

/// `crate`
pub open spec fn crate_word() -> Seq<char> {
    seq!['c', 'r', 'a', 't', 'e']
}

/// The first segment of a path: the crate an import path lies in.
pub open spec fn path_root(p: Seq<char>) -> Seq<char>
    decreases p.len(),
{
    if p.len() == 0 || p[0] == '/' {
        Seq::empty()
    } else {
        seq![p[0]] + path_root(p.subrange(1, p.len() as int))
    }
}

/// The alias that a re-export of the leaf path `segs` found under
/// `import_path` introduces, and the fully qualified path it stands for: a
/// `std` path stays as it is, a `crate` path starts at the crate root (the
/// first segment of `import_path`), any other path is relative to
/// `import_path`.
pub open spec fn alias_and_target(alias: Seq<char>, import_path: Seq<char>, segs: Seq<Seq<char>>) -> (
    Seq<char>,
    Seq<char>,
) {
    if segs.len() == 0 {
        (alias, import_path)
    } else if segs[0] == std_word() {
        (import_path + seq!['/'] + alias, join_segments(segs))
    } else if segs[0] == crate_word() {
        if segs.len() == 1 {
            (import_path + seq!['/'] + alias, path_root(import_path))
        } else {
            (
                import_path + seq!['/'] + alias,
                path_root(import_path) + seq!['/'] + join_segments(
                    segs.subrange(1, segs.len() as int),
                ),
            )
        }
    } else {
        (import_path + seq!['/'] + alias, import_path + seq!['/'] + join_segments(segs))
    }
}

/// All but the first of the strings.
fn strings_after_first(v: &[String]) -> (r: Vec<String>)
    requires
        v@.len() >= 1,
    ensures
        r@ == v@.subrange(1, v@.len() as int),
{
    let mut r: Vec<String> = Vec::new();
    let mut i: usize = 1;
    while i < v.len()
        invariant
            1 <= i <= v@.len(),
            r@ == v@.subrange(1, i as int),
        decreases v.len() - i,
    {
        r.push(v[i].clone());
        assert(r@ =~= v@.subrange(1, i + 1));
        i += 1;
    }
    r
}

/// The first segment of `p`.
pub fn root_of(p: &str) -> (r: String)
    ensures
        r@ == path_root(p@),
{
    let n = p.unicode_len();
    let mut i: usize = 0;
    while i < n && p.get_char(i) != '/'
        invariant
            i <= n,
            n == p@.len(),
            forall|k: int| 0 <= k < i ==> p@[k] != '/',
        decreases n - i,
    {
        i += 1;
    }
    proof {
        lemma_path_root_at(p@, i as int);
    }
    String::from_str(p.substring_char(0, i))
}

proof fn lemma_path_root_at(p: Seq<char>, i: int)
    requires
        0 <= i <= p.len(),
        forall|k: int| 0 <= k < i ==> p[k] != '/',
        i == p.len() || p[i] == '/',
    ensures
        path_root(p) == p.subrange(0, i),
    decreases p.len(),
{
    if i == 0 {
        assert(p.subrange(0, 0) =~= Seq::<char>::empty());
    } else {
        let rest = p.subrange(1, p.len() as int);
        assert forall|k: int| 0 <= k < i - 1 implies rest[k] != '/' by {
            assert(rest[k] == p[k + 1]);
        }
        if i < p.len() {
            assert(rest[i - 1] == p[i]);
        }
        lemma_path_root_at(rest, i - 1);
        assert(seq![p[0]] + rest.subrange(0, i - 1) =~= p.subrange(0, i));
    }
}

/// `#[cfg(test)]`
pub open spec fn is_test_cfg(a: Attr) -> bool {
    &&& a.name matches Some(n) && n@ == seq!['c', 'f', 'g']
    &&& a.argument matches Some(g) && g@ == seq!['t', 'e', 's', 't']
}

/// The leaf paths of `tree` under `prefix`.
pub fn extract_imported_paths(tree: &ImportTree, prefix: Vec<String>) -> (r: Vec<Vec<String>>)
    ensures
        paths_view(r@) == leaf_paths(*tree, strings_view(prefix@)),
    decreases tree,
{
    let ghost pv = strings_view(prefix@);
    match tree {
        ImportTree::Path { ident, tree: inner } => {
            let mut p = prefix;
            p.push(ident.clone());
            assert(strings_view(p@) =~= pv.push(ident@));
            extract_imported_paths(inner, p)
        }
        ImportTree::Name { ident } | ImportTree::Rename { ident: _, rename: ident } => {
            let mut p = prefix;
            p.push(ident.clone());
            assert(strings_view(p@) =~= pv.push(ident@));
            let r = vec![p];
            assert(paths_view(r@) =~= leaf_paths(*tree, pv));
            r
        }
        ImportTree::Glob => {
            let r = vec![prefix];
            assert(paths_view(r@) =~= leaf_paths(*tree, pv));
            r
        }
        ImportTree::Group { items } => {
            let mut out: Vec<Vec<String>> = Vec::new();
            let mut j: usize = 0;
            assert(paths_view(out@) =~= group_leaf_paths(items@, 0, pv));
            while j < items.len()
                invariant
                    j <= items.len(),
                    *tree is Group,
                    (*tree)->Group_items == *items,
                    pv == strings_view(prefix@),
                    paths_view(out@) == group_leaf_paths(items@, j as int, pv),
                decreases items.len() - j,
            {
                proof {
                    assert(decreases_to!(*tree => (*tree)->Group_items));
                    assert(decreases_to!((*tree)->Group_items => items@));
                    assert(decreases_to!(items@ => items@[j as int]));
                    assert(decreases_to!(*tree => items@[j as int]));
                }
                let mut part = extract_imported_paths(&items[j], copy_strings(&prefix));
                let ghost before = out@;
                let ghost part_view = part@;
                out.append(&mut part);
                assert(paths_view(out@) =~= paths_view(before) + paths_view(part_view));
                j += 1;
            }
            out
        }
    }
}

/// One public single-leaf `use` item per leaf of `tree`, each under the path
/// entries of `prefix`.
pub fn flatten_imported_paths(tree: &ImportTree, prefix: Vec<ImportTree>) -> (r: Vec<UseItem>)
    requires
        forall|i: int| 0 <= i < prefix@.len() ==> prefix@[i] is Path,
    ensures
        r@.len() == flat_trees(*tree, path_idents(prefix@)).len(),
        forall|i: int|
            0 <= i < r@.len() ==> is_single_use(
                #[trigger] r@[i],
                flat_trees(*tree, path_idents(prefix@))[i],
            ),
    decreases tree,
{
    let ghost ids = path_idents(prefix@);
    match tree {
        ImportTree::Path { ident, tree: inner } => {
            let mut p = prefix;
            p.push(ImportTree::Path { ident: ident.clone(), tree: Box::new(ImportTree::Glob) });
            assert(path_idents(p@) =~= ids.push(*ident));
            flatten_imported_paths(inner, p)
        }
        ImportTree::Group { items } => {
            let mut out: Vec<UseItem> = Vec::new();
            let mut j: usize = 0;
            while j < items.len()
                invariant
                    j <= items.len(),
                    *tree is Group,
                    (*tree)->Group_items == *items,
                    ids == path_idents(prefix@),
                    forall|i: int| 0 <= i < prefix@.len() ==> prefix@[i] is Path,
                    out@.len() == group_flat_trees(items@, j as int, ids).len(),
                    forall|i: int|
                        0 <= i < out@.len() ==> is_single_use(
                            #[trigger] out@[i],
                            group_flat_trees(items@, j as int, ids)[i],
                        ),
                decreases items.len() - j,
            {
                proof {
                    assert(decreases_to!(*tree => (*tree)->Group_items));
                    assert(decreases_to!((*tree)->Group_items => items@));
                    assert(decreases_to!(items@ => items@[j as int]));
                    assert(decreases_to!(*tree => items@[j as int]));
                }
                let mut part = flatten_imported_paths(&items[j], copy_path_entries(&prefix));
                let ghost before = out@;
                let ghost part_view = part@;
                out.append(&mut part);
                proof {
                    let g = group_flat_trees(items@, j + 1, ids);
                    assert(g == group_flat_trees(items@, j as int, ids) + flat_trees(items@[j as int], ids));
                    assert forall|i: int| 0 <= i < out@.len() implies is_single_use(#[trigger] out@[i], g[i]) by {
                        if i >= before.len() {
                            assert(out@[i] == part_view[i - before.len()]);
                        } else {
                            assert(out@[i] == before[i]);
                        }
                    }
                }
                j += 1;
            }
            out
        }
        _ => {
            let leaf = copy_leaf(tree);
            let r = vec![wrap(prefix, leaf)];
            r
        }
    }
}

/// `last` under the path entries of `segments`, as a public `use` item.
fn wrap(segments: Vec<ImportTree>, last: ImportTree) -> (r: UseItem)
    requires
        forall|i: int| 0 <= i < segments@.len() ==> segments@[i] is Path,
    ensures
        is_single_use(r, wrap_tree(path_idents(segments@), last)),
{
    let ghost goal = wrap_tree(path_idents(segments@), last);
    let mut segs = segments;
    let mut tree = last;
    while segs.len() > 0
        invariant
            forall|i: int| 0 <= i < segs@.len() ==> segs@[i] is Path,
            goal == wrap_tree(path_idents(segs@), tree),
        decreases segs.len(),
    {
        let ghost before = segs@;
        let seg = segs.pop().unwrap();
        assert(path_idents(segs@) =~= path_idents(before).drop_last());
        match seg {
            ImportTree::Path { ident, tree: _ } => {
                tree = ImportTree::Path { ident, tree: Box::new(tree) };
            },
            _ => {},
        }
    }
    UseItem { attrs: Vec::new(), vis: Vis::Public, leading_colon: false, tree }
}

/// A copy of a tree with no group in it.
fn copy_leaf(t: &ImportTree) -> (r: ImportTree)
    requires
        !(t is Path),
        !(t is Group),
    ensures
        r == *t,
{
    match t {
        ImportTree::Name { ident } => ImportTree::Name { ident: ident.clone() },
        ImportTree::Rename { ident, rename } => ImportTree::Rename {
            ident: ident.clone(),
            rename: rename.clone(),
        },
        _ => ImportTree::Glob,
    }
}

/// The path entries of `prefix`, each with its identifier.
fn copy_path_entries(prefix: &Vec<ImportTree>) -> (r: Vec<ImportTree>)
    requires
        forall|i: int| 0 <= i < prefix@.len() ==> prefix@[i] is Path,
    ensures
        forall|i: int| 0 <= i < r@.len() ==> r@[i] is Path,
        path_idents(r@) == path_idents(prefix@),
{
    let mut r: Vec<ImportTree> = Vec::new();
    let mut i: usize = 0;
    while i < prefix.len()
        invariant
            i <= prefix.len(),
            forall|k: int| 0 <= k < prefix@.len() ==> prefix@[k] is Path,
            r@.len() == i,
            forall|k: int| 0 <= k < r@.len() ==> r@[k] is Path,
            forall|k: int| 0 <= k < i ==> (#[trigger] r@[k])->Path_ident == prefix@[k]->Path_ident,
        decreases prefix.len() - i,
    {
        let ident = match &prefix[i] {
            ImportTree::Path { ident, tree: _ } => ident.clone(),
            _ => String::new(),
        };
        let ghost before = r@;
        r.push(ImportTree::Path { ident, tree: Box::new(ImportTree::Glob) });
        assert(r@.last()->Path_ident == prefix@[i as int]->Path_ident);
        assert(r@.drop_last() == before);
        i += 1;
    }
    assert(path_idents(r@) =~= path_idents(prefix@));
    r
}

/// A copy of the strings.
pub fn copy_strings(v: &Vec<String>) -> (r: Vec<String>)
    ensures
        r@ == v@,
{
    let mut r: Vec<String> = Vec::new();
    let mut i: usize = 0;
    while i < v.len()
        invariant
            i <= v.len(),
            r@ == v@.subrange(0, i as int),
        decreases v.len() - i,
    {
        r.push(v[i].clone());
        assert(r@ =~= v@.subrange(0, i + 1));
        i += 1;
    }
    assert(v@.subrange(0, i as int) =~= v@);
    r
}

/// The segments joined with `/`.
pub fn join_path(segments: &[String]) -> (r: String)
    ensures
        r@ == join_segments(strings_view(segments@)),
{
    let ghost sv = strings_view(segments@);
    let mut r = String::new();
    let mut i: usize = 0;
    while i < segments.len()
        invariant
            i <= segments@.len(),
            sv == strings_view(segments@),
            r@ == join_segments(sv.subrange(0, i as int)),
        decreases segments.len() - i,
    {
        proof {
            let next = sv.subrange(0, i + 1);
            assert(next.drop_last() =~= sv.subrange(0, i as int));
        }
        if i > 0 {
            r.append("/");
            proof {
                reveal_strlit("/");
            }
        }
        r.append(segments[i].as_str());
        proof {
            let next = sv.subrange(0, i + 1);
            if i == 0 {
                assert(r@ =~= join_segments(next));
            } else {
                assert(r@ =~= join_segments(next.drop_last()) + seq!['/'] + next.last());
            }
        }
        i += 1;
    }
    assert(sv.subrange(0, i as int) =~= sv);
    r
}

/// The alias path that a re-export of `segments`, found under `import_path`,
/// introduces, and the fully qualified path that it stands for.
pub fn tranform_alias_and_fqn(alias: &str, import_path: &str, segments: &[String]) -> (r: (
    String,
    String,
))
    ensures
        (r.0@, r.1@) == alias_and_target(alias@, import_path@, strings_view(segments@)),
{
    if segments.len() == 0 {
        return (String::from_str(alias), String::from_str(import_path));
    }
    let mut a = String::from_str(import_path);
    a.append("/");
    a.append(alias);
    let joined = join_path(segments);
    let std_name = String::from_str("std");
    proof {
        reveal_strlit("/");
        reveal_strlit("std");
        assert("/"@ =~= seq!['/']);
        assert(std_name@ =~= std_word());
    }
    assert(strings_view(segments@)[0] == segments@[0]@);
    let crate_name = String::from_str("crate");
    proof {
        reveal_strlit("crate");
        assert(crate_name@ =~= crate_word());
    }
    if segments[0] == std_name {
        (a, joined)
    } else if segments[0] == crate_name {
        let mut t = root_of(import_path);
        if segments.len() > 1 {
            let tail = strings_after_first(segments);
            let rest = join_path(tail.as_slice());
            assert(strings_view(segments@.subrange(1, segments@.len() as int)) =~= strings_view(
                segments@,
            ).subrange(1, segments@.len() as int));
            t.append("/");
            t.append(rest.as_str());
        }
        (a, t)
    } else {
        let mut t = String::from_str(import_path);
        t.append("/");
        t.append(joined.as_str());
        (a, t)
    }
}

/// Some attribute is `#[cfg(test)]`.
pub open spec fn has_test_cfg(attrs: Seq<Attr>) -> bool {
    exists|i: int| 0 <= i < attrs.len() && is_test_cfg(#[trigger] attrs[i])
}

/// Whether the module item carries `#[cfg(test)]`.
pub fn is_test_module(item_mod: &ModuleItem) -> (r: bool)
    ensures
        r == has_test_cfg(item_mod.attrs@),
{
    let cfg = String::from_str("cfg");
    let test = String::from_str("test");
    proof {
        reveal_strlit("cfg");
        reveal_strlit("test");
    }
    let mut i: usize = 0;
    while i < item_mod.attrs.len()
        invariant
            i <= item_mod.attrs@.len(),
            cfg@ == seq!['c', 'f', 'g'],
            test@ == seq!['t', 'e', 's', 't'],
            forall|k: int| 0 <= k < i ==> !is_test_cfg(#[trigger] item_mod.attrs@[k]),
        decreases item_mod.attrs.len() - i,
    {
        let a = &item_mod.attrs[i];
        let named = match &a.name {
            Some(n) => *n == cfg,
            None => false,
        };
        let tested = match &a.argument {
            Some(g) => *g == test,
            None => false,
        };
        if named && tested {
            return true;
        }
        i += 1;
    }
    false
}

/// Whether the `use` item is marked `pub`.
pub fn is_pub_use(item: &UseItem) -> (r: bool)
    ensures
        r == (item.vis is Public),
{
    match item.vis {
        Vis::Public => true,
        _ => false,
    }
}

/// The leaf paths of a tree wrapped under path segments are those of the tree
/// with the segments added to the prefix.
pub proof fn lemma_wrap_leaf_paths(idents: Seq<String>, last: ImportTree, prefix: Seq<Seq<char>>)
    ensures
        leaf_paths(wrap_tree(idents, last), prefix) == leaf_paths(last, prefix + strings_view(idents)),
    decreases idents.len(),
{
    if idents.len() > 0 {
        let init = idents.drop_last();
        let inner = ImportTree::Path { ident: idents.last(), tree: Box::new(last) };
        lemma_wrap_leaf_paths(init, inner, prefix);
        assert((prefix + strings_view(init)).push(idents.last()@) =~= prefix + strings_view(idents));
    } else {
        assert(prefix + strings_view(idents) =~= prefix);
    }
}

proof fn lemma_concat_leaf_paths_append(a: Seq<ImportTree>, b: Seq<ImportTree>)
    ensures
        concat_leaf_paths(a + b) == concat_leaf_paths(a) + concat_leaf_paths(b),
    decreases b.len(),
{
    if b.len() == 0 {
        assert(a + b =~= a);
        assert(concat_leaf_paths(a) + concat_leaf_paths(b) =~= concat_leaf_paths(a));
    } else {
        lemma_concat_leaf_paths_append(a, b.drop_last());
        assert((a + b).drop_last() =~= a + b.drop_last());
        assert((a + b).last() == b.last());
        assert(concat_leaf_paths(a + b) =~= concat_leaf_paths(a) + concat_leaf_paths(b));
    }
}

/// The single-leaf trees of `t` under `idents` carry, in order, the leaf paths
/// of `t` under those segments.
pub proof fn lemma_flat_trees_leaf_paths(t: ImportTree, idents: Seq<String>)
    ensures
        concat_leaf_paths(flat_trees(t, idents)) == leaf_paths(t, strings_view(idents)),
    decreases t, 0int,
{
    match t {
        ImportTree::Path { ident, tree } => {
            lemma_flat_trees_leaf_paths(*tree, idents.push(ident));
            assert(strings_view(idents.push(ident)) =~= strings_view(idents).push(ident@));
        },
        ImportTree::Group { items } => {
            lemma_group_flat_trees_leaf_paths(items@, items@.len() as int, idents);
        },
        _ => {
            let single = seq![wrap_tree(idents, t)];
            lemma_wrap_leaf_paths(idents, t, Seq::empty());
            assert(Seq::<Seq<char>>::empty() + strings_view(idents) =~= strings_view(idents));
            assert(single.drop_last() =~= Seq::<ImportTree>::empty());
            assert(single.last() == wrap_tree(idents, t));
            assert(concat_leaf_paths(single.drop_last()) =~= Seq::<Seq<Seq<char>>>::empty());
            assert(concat_leaf_paths(single) == concat_leaf_paths(single.drop_last()) + leaf_paths(
                single.last(),
                Seq::empty(),
            ));
            assert(concat_leaf_paths(single) =~= leaf_paths(wrap_tree(idents, t), Seq::empty()));
        },
    }
}

proof fn lemma_group_flat_trees_leaf_paths(items: Seq<ImportTree>, k: int, idents: Seq<String>)
    ensures
        concat_leaf_paths(group_flat_trees(items, k, idents)) == group_leaf_paths(
            items,
            k,
            strings_view(idents),
        ),
    decreases items, k,
{
    if k <= 0 || k > items.len() {
    } else {
        lemma_group_flat_trees_leaf_paths(items, k - 1, idents);
        lemma_flat_trees_leaf_paths(items[k - 1], idents);
        lemma_concat_leaf_paths_append(
            group_flat_trees(items, k - 1, idents),
            flat_trees(items[k - 1], idents),
        );
    }
}

/// Flattening a `use` tree into single-leaf items and re-extracting the leaf
/// paths of each gives back the leaf paths of the tree: the same paths, in
/// the same order, and so the same set.
pub proof fn lemma_flatten_keeps_leaf_paths(t: ImportTree)
    ensures
        concat_leaf_paths(flat_trees(t, Seq::empty())) == leaf_paths(t, Seq::empty()),
        concat_leaf_paths(flat_trees(t, Seq::empty())).to_set() == leaf_paths(
            t,
            Seq::empty(),
        ).to_set(),
{
    lemma_flat_trees_leaf_paths(t, Seq::empty());
    assert(strings_view(Seq::<String>::empty()) =~= Seq::<Seq<char>>::empty());
}

} // verus!
