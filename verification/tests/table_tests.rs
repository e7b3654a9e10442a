use declindex::entry::DeclKind;
use declindex::entry::IndexEntry;
use declindex::index::Index;
use declindex::table::ReconciliationError;
use declindex::table::load_index;
use declindex::table::reconcile_table;
use declindex::table::render_table;

fn e(file: &str, kind: DeclKind, name: &str) -> IndexEntry {
    IndexEntry::new(file.to_string(), kind, name.to_string())
}

#[test]
fn renders_header_and_rows_exactly() {
    let mut ix = Index::new();
    ix.insert(e("src/x.rs", DeclKind::Function, "main"));
    ix.insert(e("src/x.rs", DeclKind::ImplMethod, "Widget::draw"));
    let text = String::from_utf8(render_table(&ix)).unwrap();
    assert_eq!(
        text,
        "File,Item Type,Name\nsrc/x.rs,ImplFn,Widget::draw\nsrc/x.rs,Function,main\n"
    );
}

#[test]
fn loads_what_it_rendered() {
    let mut ix = Index::new();
    ix.insert(e("a.rs", DeclKind::TraitMethod, "Drawable::draw"));
    ix.insert(e("a.rs", DeclKind::Enum, "Kind"));
    let bytes = render_table(&ix);
    let loaded = load_index(&bytes).unwrap();
    assert_eq!(loaded.len(), 2);
    assert_eq!(loaded.entry_at(0).name, "Drawable::draw");
    assert_eq!(loaded.entry_at(1).name, "Kind");
}

#[test]
fn unreadable_prior_table_is_fatal() {
    let bytes = b"File,Item Type,Name\nonly,two\n".to_vec();
    match load_index(&bytes) {
        Err(ReconciliationError::Unreadable(msg)) => assert!(!msg.is_empty()),
        _ => panic!("a short row must be a fatal read error"),
    }
}

#[test]
fn wrong_column_count_is_fatal() {
    let bytes = b"File,Item Type\na.rs,Function\n".to_vec();
    match load_index(&bytes) {
        Err(ReconciliationError::MalformedRow) => {},
        _ => panic!("two-column rows must be rejected"),
    }
}

#[test]
fn unknown_kind_label_is_fatal() {
    let bytes = b"File,Item Type,Name\na.rs,Widget,foo\n".to_vec();
    match load_index(&bytes) {
        Err(ReconciliationError::MalformedRow) => {},
        _ => panic!("an unknown kind label must be rejected"),
    }
}

#[test]
fn reconciliation_is_idempotent() {
    let entries = vec![
        e("b.rs", DeclKind::Function, "beta"),
        e("a.rs", DeclKind::Struct, "Alpha"),
        e("b.rs", DeclKind::Function, "beta"),
    ];
    let first = reconcile_table(None, &entries).unwrap();
    let second = reconcile_table(Some(&first), &entries).unwrap();
    assert_eq!(first, second);
}

#[test]
fn idempotent_with_quoted_fields() {
    let entries = vec![e("dir,with,commas/a.rs", DeclKind::Function, "foo")];
    let first = reconcile_table(None, &entries).unwrap();
    assert_eq!(
        String::from_utf8(first.clone()).unwrap(),
        "File,Item Type,Name\n\"dir,with,commas/a.rs\",Function,foo\n"
    );
    let second = reconcile_table(Some(&first), &entries).unwrap();
    assert_eq!(first, second);
}

#[test]
fn incremental_merge_scenario() {
    let prior = b"File,Item Type,Name\na.src,Function,foo\n".to_vec();
    let rescan = vec![
        e("a.src", DeclKind::Function, "foo"),
        e("a.src", DeclKind::Struct, "Bar"),
    ];
    let out = reconcile_table(Some(&prior), &rescan).unwrap();
    assert_eq!(
        String::from_utf8(out).unwrap(),
        "File,Item Type,Name\na.src,Struct,Bar\na.src,Function,foo\n"
    );
}
