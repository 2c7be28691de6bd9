//! The library's model of a Rust source file: what the bundler reads of it as
//! plain values, and the syntax it does not read carried through unchanged.

use vstd::prelude::*;
use crate::source::{item_names_ok, items_names_ok, tree_names_ok, trees_names_ok};

verus! {

/// A `use` tree. Names are the identifiers as written.
#[derive(Debug, PartialEq, Eq)]
pub enum ImportTree {
    /// `ident::tree`
    Path { ident: String, tree: Box<ImportTree> },
    /// `ident`
    Name { ident: String },
    /// `ident as rename`
    Rename { ident: String, rename: String },
    /// `*`
    Glob,
    /// `{items, ...}`
    Group { items: Vec<ImportTree> },
}

/// The visibility of an item.
pub enum Vis {
    /// `pub`
    Public,
    /// `pub(crate)`, `pub(super)`, `pub(in path)`
    Restricted(syn::VisRestricted),
    /// no marker
    Inherited,
}

/// An attribute, with what the bundler reads of it.
pub struct Attr {
    /// The attribute's path when it is a single identifier (`cfg`, `doc`).
    pub name: Option<String>,
    /// The parenthesised argument when it is a single identifier (`test` in
    /// `#[cfg(test)]`).
    pub argument: Option<String>,
    /// The attribute as written.
    pub syntax: syn::Attribute,
}

/// A module item: declared only (`mod m;`) or inlined (`mod m { ... }`).
pub struct ModuleItem {
    pub attrs: Vec<Attr>,
    pub vis: Vis,
    pub unsafety: bool,
    pub ident: String,
    pub content: Option<Vec<SourceItem>>,
}

/// A `use` item.
pub struct UseItem {
    pub attrs: Vec<Attr>,
    pub vis: Vis,
    pub leading_colon: bool,
    pub tree: ImportTree,
}

/// An item of a file or of an inlined module.
pub enum SourceItem {
    Mod(ModuleItem),
    Use(UseItem),
    /// Any other item, carried as written.
    Other(syn::Item),
}

/// A parsed source file.
pub struct SourceFile {
    pub shebang: Option<String>,
    pub attrs: Vec<Attr>,
    pub items: Vec<SourceItem>,
}

/// A `use` tree as a value.
pub enum ImportView {
    Path(Seq<char>, Box<ImportView>),
    Name(Seq<char>),
    Rename(Seq<char>, Seq<char>),
    Glob,
    Group(Seq<ImportView>),
}

/// The value of a `use` tree.
pub open spec fn tree_view(t: ImportTree) -> ImportView
    decreases t, 0int,
{
    match t {
        ImportTree::Path { ident, tree } => ImportView::Path(ident@, Box::new(tree_view(*tree))),
        ImportTree::Name { ident } => ImportView::Name(ident@),
        ImportTree::Rename { ident, rename } => ImportView::Rename(ident@, rename@),
        ImportTree::Glob => ImportView::Glob,
        ImportTree::Group { items } => ImportView::Group(trees_view(items@, items@.len() as int)),
    }
}

/// The values of the first `k` trees.
pub open spec fn trees_view(items: Seq<ImportTree>, k: int) -> Seq<ImportView>
    decreases items, k,
{
    if k <= 0 || k > items.len() {
        Seq::empty()
    } else {
        trees_view(items, k - 1).push(tree_view(items[k - 1]))
    }
}

/// A copy of a tree, of the same value.
pub fn copy_tree(t: &ImportTree) -> (r: ImportTree)
    ensures
        tree_view(r) == tree_view(*t),
        tree_names_ok(r) == tree_names_ok(*t),
    decreases t,
{
    match t {
        ImportTree::Path { ident, tree } => ImportTree::Path {
            ident: ident.clone(),
            tree: Box::new(copy_tree(tree)),
        },
        ImportTree::Name { ident } => ImportTree::Name { ident: ident.clone() },
        ImportTree::Rename { ident, rename } => ImportTree::Rename {
            ident: ident.clone(),
            rename: rename.clone(),
        },
        ImportTree::Glob => ImportTree::Glob,
        ImportTree::Group { items } => {
            let mut out: Vec<ImportTree> = Vec::new();
            let mut j: usize = 0;
            while j < items.len()
                invariant
                    j <= items@.len(),
                    *t is Group,
                    (*t)->Group_items == *items,
                    out@.len() == j,
                    trees_view(out@, j as int) == trees_view(items@, j as int),
                    trees_names_ok(out@, j as int) == trees_names_ok(items@, j as int),
                decreases items.len() - j,
            {
                proof {
                    assert(decreases_to!(*t => (*t)->Group_items));
                    assert(decreases_to!((*t)->Group_items => items@));
                    assert(decreases_to!(items@ => items@[j as int]));
                }
                let c = copy_tree(&items[j]);
                let ghost before = out@;
                out.push(c);
                proof {
                    lemma_trees_view_prefix(before, out@, j as int);
                    lemma_trees_names_prefix(before, out@, j as int);
                }
                j += 1;
            }
            ImportTree::Group { items: out }
        },
    }
}

proof fn lemma_trees_view_prefix(a: Seq<ImportTree>, b: Seq<ImportTree>, k: int)
    requires
        0 <= k <= a.len(),
        k <= b.len(),
        forall|i: int| 0 <= i < k ==> a[i] == b[i],
    ensures
        trees_view(a, k) == trees_view(b, k),
    decreases k,
{
    if k > 0 {
        lemma_trees_view_prefix(a, b, k - 1);
    }
}

proof fn lemma_trees_names_prefix(a: Seq<ImportTree>, b: Seq<ImportTree>, k: int)
    requires
        0 <= k <= a.len(),
        k <= b.len(),
        forall|i: int| 0 <= i < k ==> a[i] == b[i],
    ensures
        trees_names_ok(a, k) == trees_names_ok(b, k),
    decreases k,
{
    if k > 0 {
        lemma_trees_names_prefix(a, b, k - 1);
    }
}

proof fn lemma_items_names_prefix(a: Seq<SourceItem>, b: Seq<SourceItem>, k: int)
    requires
        0 <= k <= a.len(),
        k <= b.len(),
        forall|i: int| 0 <= i < k ==> a[i] == b[i],
    ensures
        items_names_ok(a, k) == items_names_ok(b, k),
    decreases k,
{
    if k > 0 {
        lemma_items_names_prefix(a, b, k - 1);
    }
}

/// A copy of an attribute.
pub fn copy_attr(a: &Attr) -> (r: Attr)
    ensures
        r == *a,
{
    let name = match &a.name {
        Some(n) => Some(n.clone()),
        None => None,
    };
    let argument = match &a.argument {
        Some(n) => Some(n.clone()),
        None => None,
    };
    Attr { name, argument, syntax: a.syntax.clone() }
}

/// A copy of attributes.
pub fn copy_attrs(v: &Vec<Attr>) -> (r: Vec<Attr>)
    ensures
        r@ == v@,
{
    let mut out: Vec<Attr> = Vec::new();
    let mut j: usize = 0;
    while j < v.len()
        invariant
            j <= v@.len(),
            out@ == v@.subrange(0, j as int),
        decreases v.len() - j,
    {
        out.push(copy_attr(&v[j]));
        assert(out@ =~= v@.subrange(0, j + 1));
        j += 1;
    }
    assert(v@.subrange(0, j as int) =~= v@);
    out
}

/// A copy of items.
pub fn copy_items(v: &Vec<SourceItem>) -> (r: Vec<SourceItem>)
    ensures
        r@.len() == v@.len(),
        items_names_ok(r@, r@.len() as int) == items_names_ok(v@, v@.len() as int),
    decreases *v, 1int,
{
    let mut out: Vec<SourceItem> = Vec::new();
    let mut j: usize = 0;
    while j < v.len()
        invariant
            j <= v@.len(),
            out@.len() == j,
            items_names_ok(out@, j as int) == items_names_ok(v@, j as int),
        decreases v.len() - j,
    {
        proof {
            assert(decreases_to!(*v => v@));
            assert(decreases_to!(v@ => v@[j as int]));
        }
        let c = copy_item(&v[j]);
        let ghost before = out@;
        out.push(c);
        proof {
            lemma_items_names_prefix(before, out@, j as int);
        }
        j += 1;
    }
    out
}

/// A copy of an item.
pub fn copy_item(item: &SourceItem) -> (r: SourceItem)
    ensures
        item_names_ok(r) == item_names_ok(*item),
    decreases *item, 0int,
{
    match item {
        SourceItem::Mod(m) => {
            let content = match &m.content {
                Some(c) => {
                    proof {
                        assert(decreases_to!(*item => (*item)->Mod_0));
                        assert(decreases_to!((*item)->Mod_0 => (*item)->Mod_0.content));
                        assert(decreases_to!((*item)->Mod_0.content => (*item)->Mod_0.content->0));
                    }
                    Some(copy_items(c))
                },
                None => None,
            };
            SourceItem::Mod(
                ModuleItem {
                    attrs: copy_attrs(&m.attrs),
                    vis: copy_vis(&m.vis),
                    unsafety: m.unsafety,
                    ident: m.ident.clone(),
                    content,
                },
            )
        },
        SourceItem::Use(u) => SourceItem::Use(
            UseItem {
                attrs: copy_attrs(&u.attrs),
                vis: copy_vis(&u.vis),
                leading_colon: u.leading_colon,
                tree: copy_tree(&u.tree),
            },
        ),
        SourceItem::Other(o) => SourceItem::Other(o.clone()),
    }
}

/// A copy of a file.
pub fn copy_file(f: &SourceFile) -> (r: SourceFile)
    ensures
        items_names_ok(r.items@, r.items@.len() as int) == items_names_ok(
            f.items@,
            f.items@.len() as int,
        ),
{
    let shebang = match &f.shebang {
        Some(s) => Some(s.clone()),
        None => None,
    };
    SourceFile { shebang, attrs: copy_attrs(&f.attrs), items: copy_items(&f.items) }
}

/// A copy of a visibility.
pub fn copy_vis(v: &Vis) -> (r: Vis)
    ensures
        r == *v,
{
    match v {
        Vis::Public => Vis::Public,
        Vis::Restricted(x) => Vis::Restricted(x.clone()),
        Vis::Inherited => Vis::Inherited,
    }
}

} // verus!
