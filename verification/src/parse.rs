//! The boundary to the external grammar parser (`syn`): the library's own
//! model of what extraction reads from a syntax tree, and the trusted
//! wrappers that produce values of that model.

use vstd::prelude::*;

verus! {

/// The self-type of an implementation block, as far as extraction reads it:
/// a named path type (the identifiers of its segments) or any other form.
pub enum SelfTy {
    Path { segments: Vec<String> },
    Other,
}

/// One immediate member of an implementation block or trait declaration:
/// a function member, or anything else (associated constants, nested
/// types, ...), which extraction ignores.
pub enum Member {
    Method { name: String },
    Other,
}

/// One top-level item of a parsed file, reduced to what extraction reads.
pub enum SourceItem {
    Function { name: String },
    Struct { name: String },
    Enum { name: String },
    Impl { self_ty: SelfTy, members: Vec<Member> },
    Trait { name: String, members: Vec<Member> },
    Other,
}

#[verifier::external_type_specification]
#[verifier::external_body]
pub struct ExSynItem(syn::Item);

#[verifier::external_type_specification]
#[verifier::external_body]
pub struct ExSynItemImpl(syn::ItemImpl);

#[verifier::external_type_specification]
#[verifier::external_body]
pub struct ExSynItemTrait(syn::ItemTrait);

/// The model a top-level syntax-tree item stands for.
pub uninterp spec fn item_model(it: syn::Item) -> SourceItem;

/// The model an implementation block stands for.
pub uninterp spec fn impl_model(b: syn::ItemImpl) -> SourceItem;

/// The model a trait declaration stands for.
pub uninterp spec fn trait_model(t: syn::ItemTrait) -> SourceItem;

/// What parsing a file's text yields: the models of its top-level items in
/// textual order, or nothing when the text is malformed. Parsing is a
/// function of the text alone.
pub uninterp spec fn parsed(text: Seq<char>) -> Option<Seq<SourceItem>>;

/// A top-level item as the classifier hands it on: either already reduced
/// to its model, or an impl/trait block still to be taken apart.
pub enum ItemNode {
    Plain(SourceItem),
    ImplBlock(syn::ItemImpl),
    TraitBlock(syn::ItemTrait),
}

/// Relies on syn::parse_file: turns source text into the file's top-level
/// items or a syntax diagnostic; the outcome depends on the text alone.
#[verifier::external_body]
pub fn parse_source(text: &str) -> (r: Result<Vec<syn::Item>, String>)
    ensures
        r matches Ok(v) ==> parsed(text@) == Some(
            v@.map_values(|it: syn::Item| item_model(it)),
        ),
        r is Ok <==> parsed(text@) is Some,
{
    match syn::parse_file(text) {
        Ok(f) => Ok(f.items),
        Err(e) => Err(e.to_string()),
    }
}

/// Relies on syn::Item's variants: tells the top-level item kinds apart and
/// reads a declaration's identifier where the item itself carries it.
#[verifier::external_body]
pub fn classify_item(it: &syn::Item) -> (r: ItemNode)
    ensures
        r matches ItemNode::Plain(s) ==> item_model(*it) == s,
        r matches ItemNode::ImplBlock(b) ==> item_model(*it) == impl_model(b),
        r matches ItemNode::TraitBlock(t) ==> item_model(*it) == trait_model(t),
{
    match it {
        syn::Item::Fn(f) => ItemNode::Plain(SourceItem::Function { name: f.sig.ident.to_string() }),
        syn::Item::Struct(s) => ItemNode::Plain(SourceItem::Struct { name: s.ident.to_string() }),
        syn::Item::Enum(e) => ItemNode::Plain(SourceItem::Enum { name: e.ident.to_string() }),
        syn::Item::Impl(b) => ItemNode::ImplBlock(b.clone()),
        syn::Item::Trait(t) => ItemNode::TraitBlock(t.clone()),
        _ => ItemNode::Plain(SourceItem::Other),
    }
}

/// Relies on syn::ItemImpl: reads the impl block's self-type path segments
/// and the identifiers of its function members.
#[verifier::external_body]
pub fn impl_parts(b: syn::ItemImpl) -> (r: (SelfTy, Vec<Member>))
    ensures
        impl_model(b) == (SourceItem::Impl { self_ty: r.0, members: r.1 }),
{
    let self_ty = match b.self_ty.as_ref() {
        syn::Type::Path(p) => SelfTy::Path {
            segments: p.path.segments.iter().map(|s| s.ident.to_string()).collect(),
        },
        _ => SelfTy::Other,
    };
    let members = b.items.into_iter().map(|m| match m {
        syn::ImplItem::Fn(f) => Member::Method { name: f.sig.ident.to_string() },
        _ => Member::Other,
    }).collect();
    (self_ty, members)
}

/// Relies on syn::ItemTrait: reads the trait's identifier and the
/// identifiers of its function members.
#[verifier::external_body]
pub fn trait_parts(t: syn::ItemTrait) -> (r: (String, Vec<Member>))
    ensures
        trait_model(t) == (SourceItem::Trait { name: r.0, members: r.1 }),
{
    let members = t.items.into_iter().map(|m| match m {
        syn::TraitItem::Fn(f) => Member::Method { name: f.sig.ident.to_string() },
        _ => Member::Other,
    }).collect();
    (t.ident.to_string(), members)
}

} // verus!
