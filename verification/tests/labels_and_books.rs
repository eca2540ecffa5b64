use bend::diagnostics::Diagnostics;
use bend::fun::{Book, Definition, FanKind, HvmDefinition, Pattern, Rule, Tag, Term};
use bend::hvm::{Net, Tree};
use bend::{book_to_hvm, LabelGenerator, Labels};
use std::collections::HashMap;

fn generator(pairs: &[(u16, &str)]) -> LabelGenerator {
    let mut label_to_name = HashMap::new();
    let mut name_to_label = HashMap::new();
    for (l, n) in pairs {
        label_to_name.insert(*l, n.to_string());
        name_to_label.insert(n.to_string(), *l);
    }
    LabelGenerator { next: 7, name_to_label, label_to_name }
}

#[test]
fn to_tag_prefers_the_recorded_name() {
    let g = generator(&[(3, "foo"), (0, "zero")]);
    assert!(matches!(g.to_tag(Some(3)), Tag::Named(n) if n == "foo"));
    assert!(matches!(g.to_tag(Some(0)), Tag::Named(n) if n == "zero"));
}

#[test]
fn to_tag_of_unnamed_labels() {
    let g = generator(&[(3, "foo")]);
    assert!(matches!(g.to_tag(Some(0)), Tag::Auto));
    assert!(matches!(g.to_tag(Some(5)), Tag::Numeric(5)));
    assert!(matches!(g.to_tag(None), Tag::Static));
}

#[test]
fn finish_closes_the_generator_and_keeps_label_names() {
    let mut g = generator(&[(3, "foo")]);
    g.finish();
    assert_eq!(g.next, u16::MAX);
    assert!(g.name_to_label.is_empty());
    assert_eq!(g.label_to_name.get(&3).map(|s| s.as_str()), Some("foo"));
}

#[test]
fn labels_index_by_fan_kind() {
    let mut labels = Labels::default();
    labels.index_mut(FanKind::Tup).next = 4;
    labels.index_mut(FanKind::Dup).next = 9;
    assert_eq!(labels.index(FanKind::Tup).next, 4);
    assert_eq!(labels.index(FanKind::Dup).next, 9);
    assert_eq!(labels.tup.next, 4);
    assert_eq!(labels.dup.next, 9);
    assert_eq!(labels.con.next, 0);
}

fn identity() -> Term {
    Term::Lam {
        tag: Tag::Static,
        pat: Box::new(Pattern::Var(Some("x".to_string()))),
        bod: Box::new(Term::Var { nam: "x".to_string() }),
    }
}

fn vicious() -> Term {
    Term::Let {
        pat: Box::new(Pattern::Fan(
            FanKind::Dup,
            Tag::Auto,
            vec![Pattern::Var(Some("a".to_string())), Pattern::Var(Some("b".to_string()))],
        )),
        val: Box::new(Term::App {
            tag: Tag::Static,
            fun: Box::new(Term::Var { nam: "a".to_string() }),
            arg: Box::new(Term::Var { nam: "b".to_string() }),
        }),
        nxt: Box::new(Term::Era),
    }
}

fn def(name: &str, bodies: Vec<Term>) -> Definition {
    Definition { name: name.to_string(), rules: bodies.into_iter().map(|body| Rule { body }).collect() }
}

fn get<'a>(b: &'a bend::hvm::Book, name: &str) -> Option<&'a Net> {
    b.defs.iter().find(|(n, _)| n == name).map(|(_, net)| net)
}

#[test]
fn entrypoint_named_main_is_compiled_as_main() {
    let book = Book {
        defs: vec![def("Main", vec![identity()]), def("id", vec![identity()])],
        hvm_defs: vec![],
        entrypoint: Some("Main".to_string()),
    };
    let mut diags = Diagnostics::new();
    let (hb, labels) = book_to_hvm(&book, &mut diags).unwrap();
    assert_eq!(hb.defs.len(), 2);
    assert!(get(&hb, "main").is_some());
    assert!(get(&hb, "Main").is_none());
    assert!(get(&hb, "id").is_some());
    assert_eq!(labels.con.next, u16::MAX);
    assert_eq!(labels.dup.next, u16::MAX);
    assert_eq!(labels.tup.next, 0);
    assert!(!diags.has_errors());
}

#[test]
fn entrypoint_with_another_name_keeps_it() {
    let book = Book { defs: vec![def("start", vec![identity()])], hvm_defs: vec![], entrypoint: Some("start".to_string()) };
    assert_eq!(book.hvm_entrypoint(), "start");
    let mut diags = Diagnostics::new();
    let (hb, _) = book_to_hvm(&book, &mut diags).unwrap();
    assert!(get(&hb, "start").is_some());
}

#[test]
fn no_entrypoint_means_main() {
    let book = Book { defs: vec![], hvm_defs: vec![], entrypoint: None };
    assert_eq!(book.hvm_entrypoint(), "main");
}

#[test]
fn a_vicious_rule_makes_the_book_fail() {
    let book = Book {
        defs: vec![def("ok", vec![identity()]), def("bad", vec![vicious()])],
        hvm_defs: vec![],
        entrypoint: None,
    };
    let mut diags = Diagnostics::new();
    let errs = match book_to_hvm(&book, &mut diags) {
        Err(d) => d,
        Ok(_) => panic!("expected an error"),
    };
    assert_eq!(errs.diagnostics.len(), 1);
    assert_eq!(errs.diagnostics[0].origin, "bad");
    assert_eq!(errs.diagnostics[0].message, "Found term that compiles into an inet with a vicious cycle");
    assert!(!diags.has_errors());
}

#[test]
fn earlier_errors_make_the_book_fail() {
    let book = Book { defs: vec![def("ok", vec![identity()])], hvm_defs: vec![], entrypoint: None };
    let mut diags = Diagnostics::new();
    diags.add_inet_error("earlier".to_string(), "elsewhere".to_string());
    let errs = match book_to_hvm(&book, &mut diags) {
        Err(d) => d,
        Ok(_) => panic!("expected an error"),
    };
    assert_eq!(errs.diagnostics.len(), 1);
    assert_eq!(errs.diagnostics[0].message, "earlier");
}

#[test]
fn net_definitions_replace_compiled_ones() {
    let given = Net { root: Tree::Ref { nam: "given".to_string() }, rbag: vec![] };
    let book = Book {
        defs: vec![def("f", vec![identity()])],
        hvm_defs: vec![HvmDefinition { name: "f".to_string(), body: given }],
        entrypoint: None,
    };
    let mut diags = Diagnostics::new();
    let (hb, _) = book_to_hvm(&book, &mut diags).unwrap();
    assert_eq!(hb.defs.len(), 1);
    assert_eq!(format!("{:?}", get(&hb, "f").unwrap().root), "Ref { nam: \"given\" }");
}

#[test]
fn later_rules_replace_earlier_ones() {
    let book = Book {
        defs: vec![def("f", vec![identity(), Term::Ref { nam: "g".to_string() }])],
        hvm_defs: vec![],
        entrypoint: None,
    };
    let mut diags = Diagnostics::new();
    let (hb, _) = book_to_hvm(&book, &mut diags).unwrap();
    assert_eq!(hb.defs.len(), 1);
    assert_eq!(format!("{:?}", get(&hb, "f").unwrap().root), "Ref { nam: \"g\" }");
}

#[test]
fn fatal_hands_back_the_value_when_there_are_no_errors() {
    let mut diags = Diagnostics::new();
    assert_eq!(diags.fatal(5).ok(), Some(5));
    diags.add_inet_error("e".to_string(), "d".to_string());
    assert!(diags.fatal(5).is_err());
    assert!(!diags.has_errors());
}
