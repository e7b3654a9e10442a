//! The declaration extractor: walks the top-level items of a parsed file,
//! classifies each declaration and synthesizes its canonical name.

use vstd::prelude::*;
use vstd::string::StringExecFns;
use crate::entry::DeclKind;
use crate::entry::EntryModel;
use crate::entry::IndexEntry;
use crate::entry::models;
use crate::parse::ItemNode;
use crate::parse::Member;
use crate::parse::SelfTy;
use crate::parse::SourceItem;
use crate::parse::classify_item;
use crate::parse::impl_parts;
use crate::parse::item_model;
use crate::parse::parse_source;
use crate::parse::parsed;
use crate::parse::trait_parts;

verus! {

/// A per-file, recoverable extraction failure.
#[derive(Debug)]
pub enum ExtractionError {
    /// The text is not well-formed source; carries the parser's diagnostic.
    ParseFailure(String),
}

impl ExtractionError {
    /// The diagnostic the failure carries.
    pub fn diagnostic(&self) -> (r: &String)
        ensures
            *self matches ExtractionError::ParseFailure(m) && r@ == m@,
    {
        match self {
            ExtractionError::ParseFailure(m) => m,
        }
    }
}

/// The sentinel owning-type name for impl blocks whose self-type is not a
/// simple named path.
pub open spec fn spec_unknown_owner() -> Seq<char> {
    "UnknownType"@
}

/// The owning-type name an impl block's self-type resolves to: the last
/// segment of a named path, or the sentinel for every other form.
pub open spec fn spec_owner(st: SelfTy) -> Seq<char> {
    match st {
        SelfTy::Path { segments } => if segments@.len() == 0 {
            spec_unknown_owner()
        } else {
            segments@[segments@.len() - 1]@
        },
        SelfTy::Other => spec_unknown_owner(),
    }
}

/// The qualified name of a method bound to an owning type or trait.
pub open spec fn spec_qualified(owner: Seq<char>, method: Seq<char>) -> Seq<char> {
    owner + "::"@ + method
}

/// The entries an impl block's or trait's function members contribute,
/// in member order, each under the qualified name `<owner>::<method>`.
pub open spec fn spec_member_entries(
    file: Seq<char>,
    owner: Seq<char>,
    kind: DeclKind,
    members: Seq<Member>,
) -> Seq<EntryModel>
    decreases members.len(),
{
    if members.len() == 0 {
        Seq::empty()
    } else {
        spec_member_entries(file, owner, kind, members.drop_last()) + (match members.last() {
            Member::Method { name } => seq![
                EntryModel { file, kind, name: spec_qualified(owner, name@) },
            ],
            Member::Other => Seq::empty(),
        })
    }
}

/// The entries one top-level item contributes.
pub open spec fn spec_item_entries(file: Seq<char>, it: SourceItem) -> Seq<EntryModel> {
    match it {
        SourceItem::Function { name } => seq![
            EntryModel { file, kind: DeclKind::Function, name: name@ },
        ],
        SourceItem::Struct { name } => seq![
            EntryModel { file, kind: DeclKind::Struct, name: name@ },
        ],
        SourceItem::Enum { name } => seq![EntryModel { file, kind: DeclKind::Enum, name: name@ }],
        SourceItem::Impl { self_ty, members } => spec_member_entries(
            file,
            spec_owner(self_ty),
            DeclKind::ImplMethod,
            members@,
        ),
        SourceItem::Trait { name, members } => spec_member_entries(
            file,
            name@,
            DeclKind::TraitMethod,
            members@,
        ),
        SourceItem::Other => Seq::empty(),
    }
}

/// The entries a whole file contributes, item by item in textual order.
pub open spec fn spec_extract(file: Seq<char>, items: Seq<SourceItem>) -> Seq<EntryModel>
    decreases items.len(),
{
    if items.len() == 0 {
        Seq::empty()
    } else {
        spec_extract(file, items.drop_last()) + spec_item_entries(file, items.last())
    }
}

proof fn lemma_take_step<A>(s: Seq<A>, i: int)
    requires
        0 <= i < s.len(),
    ensures
        s.take(i + 1).drop_last() =~= s.take(i),
        s.take(i + 1).last() == s[i],
{
}

/// Resolves the owning-type name of an impl block's self-type.
pub fn owner_name(st: &SelfTy) -> (r: String)
    ensures
        r@ == spec_owner(*st),
{
    match st {
        SelfTy::Path { segments } => {
            if segments.len() == 0 {
                String::from_str("UnknownType")
            } else {
                segments[segments.len() - 1].clone()
            }
        },
        SelfTy::Other => String::from_str("UnknownType"),
    }
}

/// Synthesizes the qualified name `<owner>::<method>`.
pub fn qualified_name(owner: &String, method: &String) -> (r: String)
    ensures
        r@ == spec_qualified(owner@, method@),
{
    let mut q = owner.clone();
    q.append("::");
    q.append(method.as_str());
    q
}

fn push_member_entries(
    file: &String,
    owner: &String,
    kind: DeclKind,
    members: &Vec<Member>,
    out: &mut Vec<IndexEntry>,
)
    ensures
        models(final(out)@) == models(old(out)@) + spec_member_entries(
            file@,
            owner@,
            kind,
            members@,
        ),
{
    let ghost old_models = models(out@);
    let mut i: usize = 0;
    proof {
        assert(members@.take(0) =~= Seq::<Member>::empty());
        assert(models(out@) =~= old_models + spec_member_entries(
            file@,
            owner@,
            kind,
            members@.take(0),
        ));
    }
    while i < members.len()
        invariant
            i <= members.len(),
            models(out@) == old_models + spec_member_entries(
                file@,
                owner@,
                kind,
                members@.take(i as int),
            ),
        decreases members.len() - i,
    {
        match &members[i] {
            Member::Method { name } => {
                let e = IndexEntry::new(file.clone(), kind, qualified_name(owner, name));
                proof {
                    let prev = models(out@);
                    assert(models(out@.push(e)) =~= prev + seq![e@]);
                }
                out.push(e);
            },
            Member::Other => {},
        }
        proof {
            lemma_take_step(members@, i as int);
        }
        i += 1;
    }
    proof {
        assert(members@.take(members@.len() as int) =~= members@);
    }
}

fn push_item_entries(file: &String, si: &SourceItem, out: &mut Vec<IndexEntry>)
    ensures
        models(final(out)@) == models(old(out)@) + spec_item_entries(file@, *si),
{
    match si {
        SourceItem::Function { name } => {
            let e = IndexEntry::new(file.clone(), DeclKind::Function, name.clone());
            proof {
                let prev = models(out@);
                assert(models(out@.push(e)) =~= prev + seq![e@]);
            }
            out.push(e);
        },
        SourceItem::Struct { name } => {
            let e = IndexEntry::new(file.clone(), DeclKind::Struct, name.clone());
            proof {
                let prev = models(out@);
                assert(models(out@.push(e)) =~= prev + seq![e@]);
            }
            out.push(e);
        },
        SourceItem::Enum { name } => {
            let e = IndexEntry::new(file.clone(), DeclKind::Enum, name.clone());
            proof {
                let prev = models(out@);
                assert(models(out@.push(e)) =~= prev + seq![e@]);
            }
            out.push(e);
        },
        SourceItem::Impl { self_ty, members } => {
            let owner = owner_name(self_ty);
            push_member_entries(file, &owner, DeclKind::ImplMethod, members, out);
        },
        SourceItem::Trait { name, members } => {
            push_member_entries(file, name, DeclKind::TraitMethod, members, out);
        },
        SourceItem::Other => {
            proof {
                assert(models(out@) =~= models(out@) + Seq::<EntryModel>::empty());
            }
        },
    }
}

/// Collects the entries a sequence of already-modelled items contributes,
/// item by item in the given order.
pub fn entries_of_items(file: &String, items: &Vec<SourceItem>) -> (out: Vec<IndexEntry>)
    ensures
        models(out@) == spec_extract(file@, items@),
{
    let mut out: Vec<IndexEntry> = Vec::new();
    let mut i: usize = 0;
    proof {
        assert(items@.take(0) =~= Seq::<SourceItem>::empty());
        assert(models(out@) =~= Seq::<EntryModel>::empty());
    }
    while i < items.len()
        invariant
            i <= items.len(),
            models(out@) == spec_extract(file@, items@.take(i as int)),
        decreases items.len() - i,
    {
        push_item_entries(file, &items[i], &mut out);
        proof {
            lemma_take_step(items@, i as int);
        }
        i += 1;
    }
    proof {
        assert(items@.take(items@.len() as int) =~= items@);
    }
    out
}

/// Walks a parsed file's top-level items and collects the entries they
/// contribute, in textual order.
pub fn extract_entries(file: &String, items: &Vec<syn::Item>) -> (out: Vec<IndexEntry>)
    ensures
        models(out@) == spec_extract(file@, items@.map_values(|it: syn::Item| item_model(it))),
{
    let ghost item_models = items@.map_values(|it: syn::Item| item_model(it));
    let mut out: Vec<IndexEntry> = Vec::new();
    let mut i: usize = 0;
    proof {
        assert(item_models.take(0) =~= Seq::<SourceItem>::empty());
        assert(models(out@) =~= Seq::<EntryModel>::empty());
    }
    while i < items.len()
        invariant
            i <= items.len(),
            item_models == items@.map_values(|it: syn::Item| item_model(it)),
            models(out@) == spec_extract(file@, item_models.take(i as int)),
        decreases items.len() - i,
    {
        let ghost before = models(out@);
        match classify_item(&items[i]) {
            ItemNode::Plain(s) => {
                push_item_entries(file, &s, &mut out);
            },
            ItemNode::ImplBlock(b) => {
                let (st, ms) = impl_parts(b);
                let si = SourceItem::Impl { self_ty: st, members: ms };
                push_item_entries(file, &si, &mut out);
            },
            ItemNode::TraitBlock(t) => {
                let (nm, ms) = trait_parts(t);
                let si = SourceItem::Trait { name: nm, members: ms };
                push_item_entries(file, &si, &mut out);
            },
        }
        proof {
            assert(models(out@) == before + spec_item_entries(file@, item_model(items@[i as int])));
            lemma_take_step(item_models, i as int);
        }
        i += 1;
    }
    proof {
        assert(item_models.take(item_models.len() as int) =~= item_models);
    }
    out
}

/// Extracts the index entries of one candidate file from its full text.
///
/// Succeeds exactly when the text parses; a malformed file yields a
/// recoverable per-file error carrying the parser's diagnostic.
pub fn extract(file: &String, text: &str) -> (r: Result<Vec<IndexEntry>, ExtractionError>)
    ensures
        r matches Ok(v) ==> parsed(text@) matches Some(ms) && models(v@) == spec_extract(
            file@,
            ms,
        ),
        r is Ok <==> parsed(text@) is Some,
{
    match parse_source(text) {
        Ok(items) => Ok(extract_entries(file, &items)),
        Err(msg) => Err(ExtractionError::ParseFailure(msg)),
    }
}

} // verus!
