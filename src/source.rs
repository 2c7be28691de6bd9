//! Parsing source text into the model and printing the model back.

use vstd::prelude::*;
use crate::error::BundleError;
use crate::syn_bridge::{
    attribute_argument, attribute_name, error_message, file_from_parts, file_parts, ident_from_text,
    item_from_syntax, item_parts, parse_file_syntax, unparse_file, use_tree_from_syntax,
    use_tree_parts, vis_from_syntax, vis_to_syntax, ItemParts, ItemSyntax, UseTreeParts,
    UseTreeSyntax,
};
use crate::syntax::{Attr, ImportTree, ModuleItem, SourceFile, SourceItem, UseItem};
use crate::syn_bridge::{is_identifier, source_parses};

verus! {

/// Every name of the tree is an identifier.
pub open spec fn tree_names_ok(t: ImportTree) -> bool
    decreases t, 0int,
{
    match t {
        ImportTree::Path { ident, tree } => is_identifier(ident@) && tree_names_ok(*tree),
        ImportTree::Name { ident } => is_identifier(ident@),
        ImportTree::Rename { ident, rename } => is_identifier(ident@) && is_identifier(rename@),
        ImportTree::Glob => true,
        ImportTree::Group { items } => trees_names_ok(items@, items@.len() as int),
    }
}

/// Every name of the first `k` trees is an identifier.
pub open spec fn trees_names_ok(items: Seq<ImportTree>, k: int) -> bool
    decreases items, k,
{
    if k <= 0 || k > items.len() {
        true
    } else {
        trees_names_ok(items, k - 1) && tree_names_ok(items[k - 1])
    }
}

/// Every module name and `use` name of the first `k` items, nested modules
/// included, is an identifier.
pub open spec fn items_names_ok(items: Seq<SourceItem>, k: int) -> bool
    decreases items, k,
{
    if k <= 0 || k > items.len() {
        true
    } else {
        items_names_ok(items, k - 1) && item_names_ok(items[k - 1])
    }
}

/// Every module name and `use` name of the item is an identifier.
pub open spec fn item_names_ok(item: SourceItem) -> bool
    decreases item, 0int,
{
    match item {
        SourceItem::Mod(m) => is_identifier(m.ident@) && match m.content {
            Some(c) => items_names_ok(c@, c@.len() as int),
            None => true,
        },
        SourceItem::Use(u) => tree_names_ok(u.tree),
        SourceItem::Other(_) => true,
    }
}

proof fn lemma_trees_names_false(items: Seq<ImportTree>, k: int, n: int)
    requires
        0 <= k <= n <= items.len(),
        !trees_names_ok(items, k),
    ensures
        !trees_names_ok(items, n),
    decreases n,
{
    if n > k {
        lemma_trees_names_false(items, k, n - 1);
    }
}

proof fn lemma_items_names_false(items: Seq<SourceItem>, k: int, n: int)
    requires
        0 <= k <= n <= items.len(),
        !items_names_ok(items, k),
    ensures
        !items_names_ok(items, n),
    decreases n,
{
    if n > k {
        lemma_items_names_false(items, k, n - 1);
    }
}

/// `syntax nests deeper than the text is long`
pub open spec fn too_deep_message() -> Seq<char> {
    "syntax nests deeper than the text is long"@
}

/// Parses source text. On failure, the parser's message. Text that does not
/// parse fails; text that parses fails only where its syntax would nest
/// deeper than the text has characters.
pub fn parse_source(text: &str) -> (r: Result<SourceFile, String>)
    ensures
        !source_parses(text@) ==> r is Err,
        r matches Err(m) ==> !source_parses(text@) || m@ == too_deep_message(),
{
    match parse_file_syntax(text) {
        Ok(f) => {
            let fuel = text.unicode_len();
            let (shebang, attrs, items) = file_parts(f);
            match items_from_syntax(items, fuel) {
                Some(items) => Ok(SourceFile { shebang, attrs: attrs_from_syntax(attrs), items }),
                None => {
                    let m = String::from_str("syntax nests deeper than the text is long");
                    assert(m@ == too_deep_message());
                    Err(m)
                },
            }
        },
        Err(e) => Err(error_message(&e)),
    }
}

/// Prints a file as source text. Fails where a module or `use` name is not an
/// identifier.
pub fn print_source(file: SourceFile) -> (r: Result<String, BundleError>)
    ensures
        r matches Err(e) ==> e is InvalidName,
        r is Ok <==> items_names_ok(file.items@, file.items@.len() as int),
{
    let SourceFile { shebang, attrs, items } = file;
    let items = items_to_syntax(items)?;
    let f = file_from_parts(shebang, attrs_to_syntax(attrs), items);
    Ok(unparse_file(&f))
}

pub(crate) fn attrs_from_syntax(attrs: Vec<syn::Attribute>) -> (r: Vec<Attr>) {
    let mut rest = attrs;
    let mut out: Vec<Attr> = Vec::new();
    while rest.len() > 0
        decreases rest.len(),
    {
        let a = rest.remove(0);
        let name = attribute_name(&a);
        let argument = attribute_argument(&a);
        out.push(Attr { name, argument, syntax: a });
    }
    out
}

fn attrs_to_syntax(attrs: Vec<Attr>) -> (r: Vec<syn::Attribute>) {
    let mut rest = attrs;
    let mut out: Vec<syn::Attribute> = Vec::new();
    while rest.len() > 0
        decreases rest.len(),
    {
        let a = rest.remove(0);
        out.push(a.syntax);
    }
    out
}

/// Converts items, nesting at most `fuel` levels deep.
fn items_from_syntax(items: Vec<syn::Item>, fuel: usize) -> (r: Option<Vec<SourceItem>>)
    decreases fuel, 1nat,
{
    let mut rest = items;
    let mut out: Vec<SourceItem> = Vec::new();
    while rest.len() > 0
        decreases rest.len(),
    {
        let it = rest.remove(0);
        match item_from_syntax_parts(it, fuel) {
            Some(c) => out.push(c),
            None => return None,
        }
    }
    Some(out)
}

fn item_from_syntax_parts(item: syn::Item, fuel: usize) -> (r: Option<SourceItem>)
    decreases fuel, 0nat,
{
    match item_parts(item) {
        ItemParts::Mod { attrs, vis, unsafety, ident, content } => {
            let content = match content {
                Some(items) => {
                    if fuel == 0 {
                        return None;
                    }
                    match items_from_syntax(items, fuel - 1) {
                        Some(c) => Some(c),
                        None => return None,
                    }
                },
                None => None,
            };
            Some(
                SourceItem::Mod(
                    ModuleItem {
                        attrs: attrs_from_syntax(attrs),
                        vis: vis_from_syntax(vis),
                        unsafety,
                        ident,
                        content,
                    },
                ),
            )
        },
        ItemParts::Use { attrs, vis, leading_colon, tree } => {
            match use_tree_from_syntax_parts(tree, fuel) {
                Some(tree) => Some(
                    SourceItem::Use(
                        UseItem {
                            attrs: attrs_from_syntax(attrs),
                            vis: vis_from_syntax(vis),
                            leading_colon,
                            tree,
                        },
                    ),
                ),
                None => None,
            }
        },
        ItemParts::Other { item } => Some(SourceItem::Other(item)),
    }
}

fn use_tree_from_syntax_parts(t: syn::UseTree, fuel: usize) -> (r: Option<ImportTree>)
    decreases fuel,
{
    if fuel == 0 {
        return None;
    }
    match use_tree_parts(t) {
        UseTreeParts::Path { ident, tree } => match use_tree_from_syntax_parts(tree, fuel - 1) {
            Some(inner) => Some(ImportTree::Path { ident, tree: Box::new(inner) }),
            None => None,
        },
        UseTreeParts::Name { ident } => Some(ImportTree::Name { ident }),
        UseTreeParts::Rename { ident, rename } => Some(ImportTree::Rename { ident, rename }),
        UseTreeParts::Glob => Some(ImportTree::Glob),
        UseTreeParts::Group { items } => {
            let mut rest = items;
            let mut out: Vec<ImportTree> = Vec::new();
            while rest.len() > 0
                invariant
                    fuel > 0,
                decreases rest.len(),
            {
                let u = rest.remove(0);
                match use_tree_from_syntax_parts(u, fuel - 1) {
                    Some(c) => out.push(c),
                    None => return None,
                }
            }
            Some(ImportTree::Group { items: out })
        },
    }
}

fn name_syntax(name: &String) -> (r: Result<proc_macro2::Ident, BundleError>)
    ensures
        r matches Err(e) ==> e is InvalidName,
        r is Ok <==> is_identifier(name@),
{
    match ident_from_text(name.as_str()) {
        Some(i) => Ok(i),
        None => Err(BundleError::InvalidName { name: name.clone() }),
    }
}

fn items_to_syntax(items: Vec<SourceItem>) -> (r: Result<Vec<syn::Item>, BundleError>)
    ensures
        r matches Err(e) ==> e is InvalidName,
        r is Ok <==> items_names_ok(items@, items@.len() as int),
    decreases items, 1nat,
{
    let ghost orig = items@;
    let ghost whole = items;
    let total = items.len();
    proof {
        assert(decreases_to!(whole => whole@));
    }
    let mut rest = items;
    let mut out: Vec<syn::Item> = Vec::new();
    let mut j: usize = 0;
    while rest.len() > 0
        invariant
            j + rest@.len() == orig.len(),
            orig.len() == total,
            rest@ == orig.subrange(j as int, orig.len() as int),
            orig == whole@,
            whole == items,
            decreases_to!(whole => orig),
            items_names_ok(orig, j as int),
        decreases rest.len(),
    {
        let it = rest.remove(0);
        proof {
            assert(it == orig[j as int]);
            assert(decreases_to!(orig => orig[j as int]));
        }
        match item_to_syntax(it) {
            Ok(x) => out.push(x),
            Err(e) => {
                proof {
                    lemma_items_names_false(orig, j + 1, orig.len() as int);
                }
                return Err(e);
            },
        }
        j += 1;
    }
    assert(j == orig.len());
    Ok(out)
}

fn item_to_syntax(item: SourceItem) -> (r: Result<syn::Item, BundleError>)
    ensures
        r matches Err(e) ==> e is InvalidName,
        r is Ok <==> item_names_ok(item),
    decreases item, 0nat,
{
    let ghost whole = item;
    match item {
        SourceItem::Mod(m) => {
            let ident = name_syntax(&m.ident)?;
            let ModuleItem { attrs, vis, unsafety, ident: _, content } = m;
            let content = match content {
                Some(items) => {
                    proof {
                        assert(decreases_to!(whole => whole->Mod_0));
                        assert(decreases_to!(whole->Mod_0 => whole->Mod_0.content));
                        assert(decreases_to!(whole->Mod_0.content => whole->Mod_0.content->0));
                    }
                    Some(items_to_syntax(items)?)
                },
                None => None,
            };
            Ok(
                item_from_syntax(
                    ItemSyntax::Mod {
                        attrs: attrs_to_syntax(attrs),
                        vis: vis_to_syntax(vis),
                        unsafety,
                        ident,
                        content,
                    },
                ),
            )
        },
        SourceItem::Use(u) => {
            let UseItem { attrs, vis, leading_colon, tree } = u;
            let tree = use_tree_to_syntax(tree)?;
            Ok(
                item_from_syntax(
                    ItemSyntax::Use {
                        attrs: attrs_to_syntax(attrs),
                        vis: vis_to_syntax(vis),
                        leading_colon,
                        tree,
                    },
                ),
            )
        },
        SourceItem::Other(item) => Ok(item_from_syntax(ItemSyntax::Other { item })),
    }
}

fn use_tree_to_syntax(t: ImportTree) -> (r: Result<syn::UseTree, BundleError>)
    ensures
        r matches Err(e) ==> e is InvalidName,
        r is Ok <==> tree_names_ok(t),
    decreases t,
{
    let ghost whole = t;
    match t {
        ImportTree::Path { ident, tree } => {
            let ident = name_syntax(&ident)?;
            let inner = use_tree_to_syntax(*tree)?;
            Ok(use_tree_from_syntax(UseTreeSyntax::Path { ident, tree: inner }))
        },
        ImportTree::Name { ident } => {
            let ident = name_syntax(&ident)?;
            Ok(use_tree_from_syntax(UseTreeSyntax::Name { ident }))
        },
        ImportTree::Rename { ident, rename } => {
            let ident = name_syntax(&ident)?;
            let rename = name_syntax(&rename)?;
            Ok(use_tree_from_syntax(UseTreeSyntax::Rename { ident, rename }))
        },
        ImportTree::Glob => Ok(use_tree_from_syntax(UseTreeSyntax::Glob)),
        ImportTree::Group { items } => {
            let ghost orig = items@;
            let total = items.len();
            let mut rest = items;
            let mut out: Vec<syn::UseTree> = Vec::new();
            let mut j: usize = 0;
            while rest.len() > 0
                invariant
                    j + rest@.len() == orig.len(),
                    orig.len() == total,
                    whole == t,
                    rest@ == orig.subrange(j as int, orig.len() as int),
                    whole is Group,
                    whole->Group_items@ == orig,
                    trees_names_ok(orig, j as int),
                decreases rest.len(),
            {
                let u = rest.remove(0);
                proof {
                    assert(u == orig[j as int]);
                    assert(decreases_to!(whole => whole->Group_items));
                    assert(decreases_to!(whole->Group_items => whole->Group_items@));
                    assert(decreases_to!(orig => orig[j as int]));
                }
                match use_tree_to_syntax(u) {
                    Ok(x) => out.push(x),
                    Err(e) => {
                        proof {
                            lemma_trees_names_false(orig, j + 1, orig.len() as int);
                        }
                        return Err(e);
                    },
                }
                j += 1;
            }
            Ok(use_tree_from_syntax(UseTreeSyntax::Group { items: out }))
        },
    }
}

} // verus!
