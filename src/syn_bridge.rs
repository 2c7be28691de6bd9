//! The boundary with syn and prettyplease: the syntax types that the model
//! carries, parsing and printing, and conversions of one syntax node at a
//! time between syn's tree and the model. Each wrapper makes one call or
//! moves the fields of one node; the recursion over a tree is verified code.

use vstd::prelude::*;
use syn::ext::IdentExt;
use syn::parse::Parser;
use crate::syntax::Vis;

verus! {

#[verifier::external_type_specification]
#[verifier::external_body]
pub struct ExFile(syn::File);

#[verifier::external_type_specification]
#[verifier::external_body]
pub struct ExItem(syn::Item);

#[verifier::external_type_specification]
#[verifier::external_body]
pub struct ExUseTree(syn::UseTree);

#[verifier::external_type_specification]
#[verifier::external_body]
pub struct ExAttribute(syn::Attribute);

#[verifier::external_type_specification]
#[verifier::external_body]
pub struct ExVisibility(syn::Visibility);

#[verifier::external_type_specification]
#[verifier::external_body]
pub struct ExVisRestricted(syn::VisRestricted);

#[verifier::external_type_specification]
#[verifier::external_body]
pub struct ExSynError(syn::Error);

#[verifier::external_type_specification]
#[verifier::external_body]
pub struct ExIdent(proc_macro2::Ident);

/// Relies on syn's `Clone` for `Item`, which copies every field.
pub assume_specification[ <syn::Item as Clone>::clone ](item: &syn::Item) -> (r: syn::Item)
    ensures
        r == *item,
;

/// Relies on syn's `Clone` for `Attribute`, which copies every field.
pub assume_specification[ <syn::Attribute as Clone>::clone ](a: &syn::Attribute) -> (r: syn::Attribute)
    ensures
        r == *a,
;

/// Relies on syn's `Clone` for `VisRestricted`, which copies every field.
pub assume_specification[ <syn::VisRestricted as Clone>::clone ](v: &syn::VisRestricted) -> (r:
    syn::VisRestricted)
    ensures
        r == *v,
;

/// The fields of one item, with identifiers as text.
pub enum ItemParts {
    Mod {
        attrs: Vec<syn::Attribute>,
        vis: syn::Visibility,
        unsafety: bool,
        ident: String,
        content: Option<Vec<syn::Item>>,
    },
    Use { attrs: Vec<syn::Attribute>, vis: syn::Visibility, leading_colon: bool, tree: syn::UseTree },
    Other { item: syn::Item },
}

/// The fields of one item to build, with identifiers as syntax.
pub enum ItemSyntax {
    Mod {
        attrs: Vec<syn::Attribute>,
        vis: syn::Visibility,
        unsafety: bool,
        ident: proc_macro2::Ident,
        content: Option<Vec<syn::Item>>,
    },
    Use { attrs: Vec<syn::Attribute>, vis: syn::Visibility, leading_colon: bool, tree: syn::UseTree },
    Other { item: syn::Item },
}

/// The fields of one `use` tree node, with identifiers as text.
pub enum UseTreeParts {
    Path { ident: String, tree: syn::UseTree },
    Name { ident: String },
    Rename { ident: String, rename: String },
    Glob,
    Group { items: Vec<syn::UseTree> },
}

/// The fields of one `use` tree node to build, with identifiers as syntax.
pub enum UseTreeSyntax {
    Path { ident: proc_macro2::Ident, tree: syn::UseTree },
    Name { ident: proc_macro2::Ident },
    Rename { ident: proc_macro2::Ident, rename: proc_macro2::Ident },
    Glob,
    Group { items: Vec<syn::UseTree> },
}

/// `text` parses as a Rust source file.
pub uninterp spec fn source_parses(text: Seq<char>) -> bool;

/// Relies on `syn::parse_file`: parses a whole source file, failing exactly
/// where the text is no source file.
#[verifier::external_body]
pub(crate) fn parse_file_syntax(text: &str) -> (r: Result<syn::File, syn::Error>)
    ensures
        r is Ok <==> source_parses(text@),
{
    syn::parse_file(text)
}

/// Relies on `prettyplease::unparse`: prints a syntax tree as source text.
#[verifier::external_body]
pub(crate) fn unparse_file(file: &syn::File) -> (r: String) {
    prettyplease::unparse(file)
}

/// Relies on `syn::Error`'s `Display`: the error's message.
#[verifier::external_body]
pub(crate) fn error_message(e: &syn::Error) -> (r: String) {
    e.to_string()
}

/// `text` parses as a sequence of outer attributes.
pub uninterp spec fn outer_attributes_parse(text: Seq<char>) -> bool;

/// Relies on `syn::Attribute::parse_outer` through `Parser::parse_str`:
/// parses all of `text` as outer attributes.
#[verifier::external_body]
pub(crate) fn parse_outer_attributes(text: &str) -> (r: Result<Vec<syn::Attribute>, syn::Error>)
    ensures
        r is Ok <==> outer_attributes_parse(text@),
{
    syn::Attribute::parse_outer.parse_str(text)
}

/// `text` is exactly one identifier token (keywords and raw identifiers
/// included).
pub uninterp spec fn is_identifier(text: Seq<char>) -> bool;

/// Relies on `syn::ext::IdentExt::parse_any` through `Parser::parse_str`,
/// which parses all of `text` as one identifier: `None` exactly where `text`
/// is not one.
#[verifier::external_body]
pub(crate) fn ident_from_text(text: &str) -> (r: Option<proc_macro2::Ident>)
    ensures
        r is Some <==> is_identifier(text@),
{
    proc_macro2::Ident::parse_any.parse_str(text).ok()
}

/// Relies on `syn::Attribute::path` and `syn::Path::get_ident`: the path of
/// the attribute when it is a single identifier.
#[verifier::external_body]
pub(crate) fn attribute_name(a: &syn::Attribute) -> (r: Option<String>) {
    a.path().get_ident().map(|i| i.to_string())
}

/// Relies on `syn::Attribute::parse_args`: the parenthesised argument when it
/// parses as a path expression that is a single identifier.
#[verifier::external_body]
pub(crate) fn attribute_argument(a: &syn::Attribute) -> (r: Option<String>) {
    match a.parse_args::<syn::Expr>() {
        Ok(syn::Expr::Path(p)) => p.path.get_ident().map(|i| i.to_string()),
        _ => None,
    }
}

/// Relies on the fields of `syn::File`.
#[verifier::external_body]
pub(crate) fn file_parts(f: syn::File) -> (r: (Option<String>, Vec<syn::Attribute>, Vec<syn::Item>)) {
    (f.shebang, f.attrs, f.items)
}

/// Relies on the fields of `syn::File`.
#[verifier::external_body]
pub(crate) fn file_from_parts(
    shebang: Option<String>,
    attrs: Vec<syn::Attribute>,
    items: Vec<syn::Item>,
) -> (r: syn::File) {
    syn::File { shebang, attrs, items }
}

/// Relies on the variants of `syn::Item` and the fields of `syn::ItemMod` and
/// `syn::ItemUse`.
#[verifier::external_body]
pub(crate) fn item_parts(item: syn::Item) -> (r: ItemParts) {
    match item {
        syn::Item::Mod(m) => ItemParts::Mod {
            attrs: m.attrs, vis: m.vis, unsafety: m.unsafety.is_some(), ident: m.ident.to_string(),
            content: m.content.map(|c| c.1),
        },
        syn::Item::Use(u) => ItemParts::Use {
            attrs: u.attrs, vis: u.vis, leading_colon: u.leading_colon.is_some(), tree: u.tree,
        },
        other => ItemParts::Other { item: other },
    }
}

/// Relies on the variants of `syn::Item` and the fields of `syn::ItemMod` and
/// `syn::ItemUse`.
#[verifier::external_body]
pub(crate) fn item_from_syntax(p: ItemSyntax) -> (r: syn::Item) {
    match p {
        ItemSyntax::Mod { attrs, vis, unsafety, ident, content } => syn::Item::Mod(syn::ItemMod {
            attrs, vis, unsafety: unsafety.then_some(Default::default()), mod_token: Default::default(),
            ident, semi: None, content: content.map(|items| (Default::default(), items)),
        }),
        ItemSyntax::Use { attrs, vis, leading_colon, tree } => syn::Item::Use(syn::ItemUse {
            attrs, vis, use_token: Default::default(), tree, semi_token: Default::default(),
            leading_colon: leading_colon.then_some(Default::default()),
        }),
        ItemSyntax::Other { item } => item,
    }
}

/// Relies on the variants of `syn::UseTree` and their fields.
#[verifier::external_body]
pub(crate) fn use_tree_parts(t: syn::UseTree) -> (r: UseTreeParts) {
    match t {
        syn::UseTree::Path(p) => UseTreeParts::Path { ident: p.ident.to_string(), tree: *p.tree },
        syn::UseTree::Name(n) => UseTreeParts::Name { ident: n.ident.to_string() },
        syn::UseTree::Rename(r) => UseTreeParts::Rename {
            ident: r.ident.to_string(),
            rename: r.rename.to_string(),
        },
        syn::UseTree::Glob(_) => UseTreeParts::Glob,
        syn::UseTree::Group(g) => UseTreeParts::Group { items: g.items.into_iter().collect() },
    }
}

/// Relies on the variants of `syn::UseTree` and their fields.
#[verifier::external_body]
pub(crate) fn use_tree_from_syntax(p: UseTreeSyntax) -> (r: syn::UseTree) {
    match p {
        UseTreeSyntax::Path { ident, tree } => syn::UseTree::Path(syn::UsePath {
            ident, colon2_token: Default::default(), tree: Box::new(tree),
        }),
        UseTreeSyntax::Name { ident } => syn::UseTree::Name(syn::UseName { ident }),
        UseTreeSyntax::Rename { ident, rename } => syn::UseTree::Rename(syn::UseRename {
            ident, as_token: Default::default(), rename,
        }),
        UseTreeSyntax::Glob => syn::UseTree::Glob(syn::UseGlob { star_token: Default::default() }),
        UseTreeSyntax::Group { items } => syn::UseTree::Group(syn::UseGroup {
            brace_token: Default::default(), items: items.into_iter().collect(),
        }),
    }
}

/// Relies on the variants of `syn::Visibility`.
#[verifier::external_body]
pub(crate) fn vis_from_syntax(v: syn::Visibility) -> (r: Vis) {
    match v {
        syn::Visibility::Public(_) => Vis::Public,
        syn::Visibility::Restricted(r) => Vis::Restricted(r),
        syn::Visibility::Inherited => Vis::Inherited,
    }
}

/// Relies on the variants of `syn::Visibility`.
#[verifier::external_body]
pub(crate) fn vis_to_syntax(v: Vis) -> (r: syn::Visibility) {
    match v {
        Vis::Public => syn::Visibility::Public(Default::default()),
        Vis::Restricted(r) => syn::Visibility::Restricted(r),
        Vis::Inherited => syn::Visibility::Inherited,
    }
}

} // verus!
