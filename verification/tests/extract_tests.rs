use declindex::entry::DeclKind;
use declindex::entry::IndexEntry;
use declindex::extract::ExtractionError;
use declindex::extract::entries_of_items;
use declindex::extract::extract;
use declindex::parse::Member;
use declindex::parse::SelfTy;
use declindex::parse::SourceItem;

fn triple(e: &IndexEntry) -> (String, String) {
    (e.file.clone(), e.name.clone())
}

#[test]
fn extracts_function() {
    let r = extract(&"a.rs".to_string(), "fn foo() {}").unwrap();
    assert_eq!(r.len(), 1);
    assert_eq!(triple(&r[0]), ("a.rs".to_string(), "foo".to_string()));
    assert!(matches!(r[0].kind, DeclKind::Function));
}

#[test]
fn extracts_struct_and_enum() {
    let r = extract(&"b.rs".to_string(), "struct S { x: u8 }\nenum E { A, B }").unwrap();
    assert_eq!(r.len(), 2);
    assert!(matches!(r[0].kind, DeclKind::Struct));
    assert_eq!(r[0].name, "S");
    assert!(matches!(r[1].kind, DeclKind::Enum));
    assert_eq!(r[1].name, "E");
}

#[test]
fn qualifies_impl_method_with_owning_type() {
    let src = "struct Widget;\nimpl Widget { fn draw(&self) {} }";
    let r = extract(&"w.rs".to_string(), src).unwrap();
    assert_eq!(r.len(), 2);
    assert!(matches!(r[1].kind, DeclKind::ImplMethod));
    assert_eq!(r[1].name, "Widget::draw");
}

#[test]
fn qualifies_trait_method_with_trait_name() {
    let src = "trait Drawable { fn draw(&self); }";
    let r = extract(&"t.rs".to_string(), src).unwrap();
    assert_eq!(r.len(), 1);
    assert!(matches!(r[0].kind, DeclKind::TraitMethod));
    assert_eq!(r[0].name, "Drawable::draw");
}

#[test]
fn owner_is_last_path_segment() {
    let src = "impl some::path::Widget { fn f() {} }";
    let r = extract(&"p.rs".to_string(), src).unwrap();
    assert_eq!(r.len(), 1);
    assert_eq!(r[0].name, "Widget::f");
}

#[test]
fn non_path_self_type_uses_sentinel() {
    let src = "impl &Widget { fn f() {} }";
    let r = extract(&"q.rs".to_string(), src).unwrap();
    assert_eq!(r.len(), 1);
    assert_eq!(r[0].name, "UnknownType::f");
}

#[test]
fn non_function_members_are_ignored() {
    let src = "impl Widget { const N: usize = 3; type T = u8; fn draw() {} }";
    let r = extract(&"m.rs".to_string(), src).unwrap();
    assert_eq!(r.len(), 1);
    assert_eq!(r[0].name, "Widget::draw");
}

#[test]
fn other_top_level_items_are_ignored() {
    let src = "mod m {}\ntype X = u8;\nconst K: u8 = 0;\nuse std::fmt;\nfn top() {}";
    let r = extract(&"o.rs".to_string(), src).unwrap();
    assert_eq!(r.len(), 1);
    assert_eq!(r[0].name, "top");
}

#[test]
fn nested_declarations_are_not_visited() {
    let src = "fn outer() { fn inner() {} struct Hidden; }";
    let r = extract(&"n.rs".to_string(), src).unwrap();
    assert_eq!(r.len(), 1);
    assert_eq!(r[0].name, "outer");
}

#[test]
fn malformed_source_is_a_per_file_error() {
    let r = extract(&"bad.rs".to_string(), "fn (");
    match r {
        Err(ExtractionError::ParseFailure(msg)) => assert!(!msg.is_empty()),
        Ok(_) => panic!("malformed source must not parse"),
    }
}

#[test]
fn extraction_keeps_textual_order() {
    let src = "fn zeta() {}\nstruct Alpha;\nfn beta() {}";
    let r = extract(&"ord.rs".to_string(), src).unwrap();
    let names: Vec<String> = r.iter().map(|e| e.name.clone()).collect();
    assert_eq!(names, vec!["zeta".to_string(), "Alpha".to_string(), "beta".to_string()]);
}

#[test]
fn entries_of_modelled_items() {
    let items = vec![
        SourceItem::Impl {
            self_ty: SelfTy::Path {
                segments: vec!["geo".to_string(), "Widget".to_string()],
            },
            members: vec![
                Member::Method { name: "draw".to_string() },
                Member::Other,
            ],
        },
        SourceItem::Impl {
            self_ty: SelfTy::Other,
            members: vec![Member::Method { name: "f".to_string() }],
        },
        SourceItem::Impl {
            self_ty: SelfTy::Path { segments: Vec::new() },
            members: vec![Member::Method { name: "g".to_string() }],
        },
        SourceItem::Other,
    ];
    let out = entries_of_items(&"x.rs".to_string(), &items);
    let names: Vec<String> = out.iter().map(|e| e.name.clone()).collect();
    assert_eq!(
        names,
        vec![
            "Widget::draw".to_string(),
            "UnknownType::f".to_string(),
            "UnknownType::g".to_string(),
        ]
    );
    assert!(out.iter().all(|e| matches!(e.kind, DeclKind::ImplMethod)));
    assert!(out.iter().all(|e| e.file == "x.rs"));
}
