//! The atomic unit of the index: an entry identified by its
//! (file, kind, name) triple, together with the total order the
//! persisted table is sorted by.

use vstd::prelude::*;
use crate::order::lex_lt;
use crate::order::lemma_lex_lt_asymmetric;
use crate::order::lemma_lex_lt_connected;
use crate::order::lemma_lex_lt_irreflexive;
use crate::order::lemma_lex_lt_transitive;
use crate::order::str_eq;
use crate::order::str_lt;

verus! {

/// The closed set of declaration kinds the index records.
#[derive(Clone, Copy, PartialEq, Eq, Structural, Debug)]
pub enum DeclKind {
    Function,
    Struct,
    Enum,
    ImplMethod,
    TraitMethod,
}

/// The label under which a kind is persisted in the table.
pub open spec fn spec_kind_label(k: DeclKind) -> Seq<char> {
    match k {
        DeclKind::Function => "Function"@,
        DeclKind::Struct => "Struct"@,
        DeclKind::Enum => "Enum"@,
        DeclKind::ImplMethod => "ImplFn"@,
        DeclKind::TraitMethod => "TraitFn"@,
    }
}

pub fn kind_label(k: DeclKind) -> (r: &'static str)
    ensures
        r@ == spec_kind_label(k),
{
    match k {
        DeclKind::Function => "Function",
        DeclKind::Struct => "Struct",
        DeclKind::Enum => "Enum",
        DeclKind::ImplMethod => "ImplFn",
        DeclKind::TraitMethod => "TraitFn",
    }
}

/// The kind a persisted label stands for, if any.
pub open spec fn spec_kind_of_label(s: Seq<char>) -> Option<DeclKind> {
    if s == "Function"@ {
        Some(DeclKind::Function)
    } else if s == "Struct"@ {
        Some(DeclKind::Struct)
    } else if s == "Enum"@ {
        Some(DeclKind::Enum)
    } else if s == "ImplFn"@ {
        Some(DeclKind::ImplMethod)
    } else if s == "TraitFn"@ {
        Some(DeclKind::TraitMethod)
    } else {
        None
    }
}

pub fn kind_of_label(s: &str) -> (r: Option<DeclKind>)
    ensures
        r == spec_kind_of_label(s@),
{
    if str_eq(s, "Function") {
        Some(DeclKind::Function)
    } else if str_eq(s, "Struct") {
        Some(DeclKind::Struct)
    } else if str_eq(s, "Enum") {
        Some(DeclKind::Enum)
    } else if str_eq(s, "ImplFn") {
        Some(DeclKind::ImplMethod)
    } else if str_eq(s, "TraitFn") {
        Some(DeclKind::TraitMethod)
    } else {
        None
    }
}

/// The rank a kind takes in the tie-break of the total order.
pub open spec fn kind_rank(k: DeclKind) -> int {
    match k {
        DeclKind::Function => 0,
        DeclKind::Struct => 1,
        DeclKind::Enum => 2,
        DeclKind::ImplMethod => 3,
        DeclKind::TraitMethod => 4,
    }
}

fn kind_rank_exec(k: DeclKind) -> (r: u8)
    ensures
        r as int == kind_rank(k),
{
    match k {
        DeclKind::Function => 0,
        DeclKind::Struct => 1,
        DeclKind::Enum => 2,
        DeclKind::ImplMethod => 3,
        DeclKind::TraitMethod => 4,
    }
}

/// The mathematical value of one index entry.
pub struct EntryModel {
    pub file: Seq<char>,
    pub kind: DeclKind,
    pub name: Seq<char>,
}

/// One row of the index: a declaration's file, kind and (qualified) name.
/// The triple is the entry's whole identity; it carries no other payload.
pub struct IndexEntry {
    pub file: String,
    pub kind: DeclKind,
    pub name: String,
}

impl View for IndexEntry {
    type V = EntryModel;

    open spec fn view(&self) -> EntryModel {
        EntryModel { file: self.file@, kind: self.kind, name: self.name@ }
    }
}

impl DeepView for IndexEntry {
    type V = EntryModel;

    open spec fn deep_view(&self) -> EntryModel {
        self.view()
    }
}

impl Clone for IndexEntry {
    fn clone(&self) -> (r: Self)
        ensures
            r@ == self@,
    {
        IndexEntry { file: self.file.clone(), kind: self.kind, name: self.name.clone() }
    }
}

impl IndexEntry {
    pub fn new(file: String, kind: DeclKind, name: String) -> (r: Self)
        ensures
            r@ == (EntryModel { file: file@, kind: kind, name: name@ }),
    {
        IndexEntry { file, kind, name }
    }
}

/// The models of a sequence of entries, element for element.
pub open spec fn models(s: Seq<IndexEntry>) -> Seq<EntryModel> {
    s.map_values(|e: IndexEntry| e@)
}

/// The strict total order of the persisted table: by file, then by name,
/// then by kind. Distinct triples always compare strictly.
pub open spec fn entry_lt(a: EntryModel, b: EntryModel) -> bool {
    ||| lex_lt(a.file, b.file)
    ||| (a.file == b.file && lex_lt(a.name, b.name))
    ||| (a.file == b.file && a.name == b.name && kind_rank(a.kind) < kind_rank(b.kind))
}

pub proof fn lemma_entry_lt_irreflexive(a: EntryModel)
    ensures
        !entry_lt(a, a),
{
    lemma_lex_lt_irreflexive(a.file);
    lemma_lex_lt_irreflexive(a.name);
}

pub proof fn lemma_entry_lt_connected(a: EntryModel, b: EntryModel)
    ensures
        entry_lt(a, b) || entry_lt(b, a) || a == b,
{
    lemma_lex_lt_connected(a.file, b.file);
    lemma_lex_lt_connected(a.name, b.name);
    if !entry_lt(a, b) && !entry_lt(b, a) {
        assert(a.file == b.file);
        assert(a.name == b.name);
        assert(kind_rank(a.kind) == kind_rank(b.kind));
        assert(a.kind == b.kind);
    }
}

pub proof fn lemma_entry_lt_asymmetric(a: EntryModel, b: EntryModel)
    requires
        entry_lt(a, b),
    ensures
        !entry_lt(b, a),
        a != b,
{
    if lex_lt(a.file, b.file) {
        lemma_lex_lt_asymmetric(a.file, b.file);
    } else if a.file == b.file && lex_lt(a.name, b.name) {
        lemma_lex_lt_asymmetric(a.name, b.name);
    }
    lemma_entry_lt_irreflexive(a);
}

pub proof fn lemma_entry_lt_transitive(a: EntryModel, b: EntryModel, c: EntryModel)
    requires
        entry_lt(a, b),
        entry_lt(b, c),
    ensures
        entry_lt(a, c),
{
    if lex_lt(a.file, b.file) && lex_lt(b.file, c.file) {
        lemma_lex_lt_transitive(a.file, b.file, c.file);
    }
    if a.file == b.file && b.file == c.file && lex_lt(a.name, b.name) && lex_lt(b.name, c.name) {
        lemma_lex_lt_transitive(a.name, b.name, c.name);
    }
}

/// Decides the table order on two entries.
pub fn entry_lt_exec(a: &IndexEntry, b: &IndexEntry) -> (r: bool)
    ensures
        r == entry_lt(a@, b@),
{
    if str_lt(a.file.as_str(), b.file.as_str()) {
        true
    } else if !str_eq(a.file.as_str(), b.file.as_str()) {
        false
    } else if str_lt(a.name.as_str(), b.name.as_str()) {
        true
    } else if !str_eq(a.name.as_str(), b.name.as_str()) {
        false
    } else {
        kind_rank_exec(a.kind) < kind_rank_exec(b.kind)
    }
}

/// Decides whether two entries share the identity triple.
pub fn entry_eq_exec(a: &IndexEntry, b: &IndexEntry) -> (r: bool)
    ensures
        r == (a@ == b@),
{
    let r = str_eq(a.file.as_str(), b.file.as_str()) && a.kind == b.kind
        && str_eq(a.name.as_str(), b.name.as_str());
    proof {
        if a@.file == b@.file && a@.kind == b@.kind && a@.name == b@.name {
            assert(a@ == b@);
        }
    }
    r
}

} // verus!
