use declindex::entry::DeclKind;
use declindex::entry::IndexEntry;
use declindex::index::Index;
use declindex::index::reconcile;
use declindex::table::render_table;

fn e(file: &str, kind: DeclKind, name: &str) -> IndexEntry {
    IndexEntry::new(file.to_string(), kind, name.to_string())
}

fn rows(ix: &Index) -> Vec<(String, String)> {
    let mut out = Vec::new();
    let mut i = 0;
    while i < ix.len() {
        let entry = ix.entry_at(i);
        out.push((entry.file.clone(), entry.name.clone()));
        i += 1;
    }
    out
}

#[test]
fn duplicate_triples_collapse() {
    let mut ix = Index::new();
    ix.insert(e("a.rs", DeclKind::Function, "foo"));
    ix.insert(e("a.rs", DeclKind::Function, "foo"));
    assert_eq!(ix.len(), 1);
}

#[test]
fn same_name_different_kind_is_kept() {
    let mut ix = Index::new();
    ix.insert(e("a.rs", DeclKind::Function, "foo"));
    ix.insert(e("a.rs", DeclKind::Struct, "foo"));
    assert_eq!(ix.len(), 2);
}

#[test]
fn merge_order_does_not_matter() {
    let e1 = vec![
        e("a.rs", DeclKind::Function, "foo"),
        e("b.rs", DeclKind::Struct, "Bar"),
    ];
    let e2 = vec![
        e("b.rs", DeclKind::Struct, "Bar"),
        e("c.rs", DeclKind::Enum, "Baz"),
    ];

    let mut first = Index::new();
    first.merge(&e1);
    first.merge(&e2);

    let mut second = Index::new();
    second.merge(&e2);
    second.merge(&e1);

    assert_eq!(rows(&first), rows(&second));
    assert_eq!(first.len(), 3);
}

#[test]
fn output_rows_are_sorted_by_file_then_name() {
    let batch = vec![
        e("z.rs", DeclKind::Function, "a"),
        e("a.rs", DeclKind::Function, "z"),
        e("a.rs", DeclKind::Struct, "A"),
        e("m.rs", DeclKind::Enum, "M"),
        e("a.rs", DeclKind::Function, "b"),
    ];
    let ix = reconcile(None, &batch);
    let got = rows(&ix);
    let mut i = 1;
    while i < got.len() {
        let (pf, pn) = &got[i - 1];
        let (cf, cn) = &got[i];
        assert!(pf <= cf);
        if pf == cf {
            assert!(pn <= cn);
        }
        i += 1;
    }
    assert_eq!(got[0], ("a.rs".to_string(), "A".to_string()));
}

#[test]
fn reconcile_without_prior_starts_empty() {
    let ix = reconcile(None, &Vec::new());
    assert_eq!(ix.len(), 0);
    let bytes = render_table(&ix);
    assert_eq!(String::from_utf8(bytes).unwrap(), "File,Item Type,Name\n");
}

#[test]
fn reconcile_keeps_prior_entries() {
    let mut prior = Index::new();
    prior.insert(e("old.rs", DeclKind::Function, "kept"));
    let ix = reconcile(Some(prior), &vec![e("new.rs", DeclKind::Struct, "New")]);
    assert_eq!(
        rows(&ix),
        vec![
            ("new.rs".to_string(), "New".to_string()),
            ("old.rs".to_string(), "kept".to_string()),
        ]
    );
}
