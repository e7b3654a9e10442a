use declindex::entry::DeclKind;
use declindex::entry::IndexEntry;
use declindex::entry::entry_lt_exec;
use declindex::entry::kind_label;
use declindex::entry::kind_of_label;
use declindex::extract::ExtractionError;
use declindex::extract::extract;
use declindex::index::reconcile;
use declindex::order::str_eq;
use declindex::order::str_lt;
use declindex::table::render_table;

#[test]
fn lexicographic_order_on_strings() {
    assert!(str_lt("Bar", "foo"));
    assert!(str_lt("", "a"));
    assert!(str_lt("ab", "b"));
    assert!(str_lt("ab", "abc"));
    assert!(!str_lt("abc", "ab"));
    assert!(!str_lt("same", "same"));
}

#[test]
fn string_equality_is_exact() {
    assert!(str_eq("", ""));
    assert!(str_eq("Widget::draw", "Widget::draw"));
    assert!(!str_eq("Widget::draw", "Widget::dra"));
    assert!(!str_eq("a", "A"));
}

#[test]
fn kind_labels_round_trip() {
    for kind in [
        DeclKind::Function,
        DeclKind::Struct,
        DeclKind::Enum,
        DeclKind::ImplMethod,
        DeclKind::TraitMethod,
    ] {
        let label = kind_label(kind);
        assert_eq!(kind_of_label(label), Some(kind));
    }
    assert_eq!(kind_of_label("Widget"), None);
    assert_eq!(kind_of_label(""), None);
}

#[test]
fn entries_compare_by_file_then_name() {
    let a = IndexEntry::new("a.rs".to_string(), DeclKind::Struct, "z".to_string());
    let b = IndexEntry::new("b.rs".to_string(), DeclKind::Function, "a".to_string());
    let c = IndexEntry::new("a.rs".to_string(), DeclKind::Function, "zz".to_string());
    assert!(entry_lt_exec(&a, &b));
    assert!(!entry_lt_exec(&b, &a));
    assert!(entry_lt_exec(&a, &c));
}

#[test]
fn partial_failure_tolerance() {
    let good = extract(&"good.src".to_string(), "fn foo() {}");
    let bad = extract(&"bad.src".to_string(), "fn !!!");
    let mut gathered = Vec::new();
    let mut failures = 0;
    for result in [good, bad] {
        match result {
            Ok(mut entries) => gathered.append(&mut entries),
            Err(ExtractionError::ParseFailure(_)) => failures += 1,
        }
    }
    assert_eq!(failures, 1);
    let ix = reconcile(None, &gathered);
    let text = String::from_utf8(render_table(&ix)).unwrap();
    assert_eq!(text, "File,Item Type,Name\ngood.src,Function,foo\n");
}
