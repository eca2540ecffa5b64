use bend::fun::{FanKind, Pattern, Tag, Term};
use bend::hvm::{count_nodes, Net, Tree};
use bend::names::num_to_name;
use bend::{term_to_hvm, Labels};

fn var(n: &str) -> Term {
    Term::Var { nam: n.to_string() }
}

fn rf(n: &str) -> Term {
    Term::Ref { nam: n.to_string() }
}

fn lam(x: &str, bod: Term) -> Term {
    Term::Lam { tag: Tag::Static, pat: Box::new(Pattern::Var(Some(x.to_string()))), bod: Box::new(bod) }
}

fn app(fun: Term, arg: Term) -> Term {
    Term::App { tag: Tag::Static, fun: Box::new(fun), arg: Box::new(arg) }
}

fn show(t: &Tree) -> String {
    format!("{:?}", t)
}

fn compile(t: &Term) -> Result<Net, String> {
    let mut labels = Labels::default();
    term_to_hvm(t, &mut labels)
}

/// Names of the `Var` (true) and `Sub` (false) leaves of a tree.
fn leaf_names(t: &Tree, out: &mut Vec<(bool, String)>) {
    match t {
        Tree::Var { nam } => out.push((true, nam.clone())),
        Tree::Sub { nam } => out.push((false, nam.clone())),
        Tree::Lam { fst, snd } | Tree::App { fst, snd } | Tree::Dup { fst, snd } | Tree::Sup { fst, snd } => {
            leaf_names(fst, out);
            leaf_names(snd, out);
        }
        _ => {}
    }
}

fn net_leaf_names(n: &Net) -> Vec<(bool, String)> {
    let mut out = Vec::new();
    leaf_names(&n.root, &mut out);
    for (_, a, b) in &n.rbag {
        leaf_names(a, &mut out);
        leaf_names(b, &mut out);
    }
    out
}

fn net_count(n: &Net) -> usize {
    count_nodes(&n.root) + n.rbag.iter().map(|(_, a, b)| count_nodes(a) + count_nodes(b)).sum::<usize>()
}

#[test]
fn wire_names_are_base_26_little_endian() {
    assert_eq!(num_to_name(0), "a");
    assert_eq!(num_to_name(25), "z");
    assert_eq!(num_to_name(26), "ab");
    assert_eq!(num_to_name(27), "bb");
    assert_eq!(num_to_name(676), "aab");
}

#[test]
fn wire_names_are_distinct() {
    let names: Vec<String> = (0..2000u64).map(num_to_name).collect();
    for i in 0..names.len() {
        for j in (i + 1)..names.len() {
            assert_ne!(names[i], names[j]);
        }
    }
}

#[test]
fn identity_is_a_lambda_node_joined_to_itself() {
    let net = compile(&lam("x", var("x"))).unwrap();
    assert_eq!(show(&net.root), "Lam { fst: Sub { nam: \"a\" }, snd: Var { nam: \"a\" } }");
    assert!(net.rbag.is_empty());
}

#[test]
fn eraser_and_reference_are_leaves() {
    let net = compile(&Term::Era).unwrap();
    assert_eq!(show(&net.root), "Era");
    let net = compile(&rf("foo")).unwrap();
    assert_eq!(show(&net.root), "Ref { nam: \"foo\" }");
    assert!(net.rbag.is_empty());
}

#[test]
fn application_of_a_reference_is_a_redex() {
    let net = compile(&app(rf("f"), rf("g"))).unwrap();
    assert_eq!(show(&net.root), "Var { nam: \"a\" }");
    assert_eq!(net.rbag.len(), 1);
    let (flag, neg, pos) = &net.rbag[0];
    assert!(!*flag);
    assert_eq!(show(neg), "Ref { nam: \"f\" }");
    assert_eq!(show(pos), "App { fst: Ref { nam: \"g\" }, snd: Sub { nam: \"a\" } }");
}

#[test]
fn superposition_fan_is_a_sup_node() {
    let t = Term::Fan { fan: FanKind::Dup, tag: Tag::Auto, els: vec![rf("x"), rf("y")] };
    let net = compile(&t).unwrap();
    assert_eq!(show(&net.root), "Sup { fst: Ref { nam: \"x\" }, snd: Ref { nam: \"y\" } }");
}

#[test]
fn fan_of_three_is_a_chain_of_two_nodes() {
    let t = Term::Fan { fan: FanKind::Dup, tag: Tag::Auto, els: vec![rf("x"), rf("y"), rf("z")] };
    let net = compile(&t).unwrap();
    assert_eq!(
        show(&net.root),
        "Sup { fst: Ref { nam: \"x\" }, snd: Sup { fst: Ref { nam: \"y\" }, snd: Ref { nam: \"z\" } } }"
    );
    assert_eq!(net_count(&net), 2);
}

#[test]
fn single_element_tuple_is_its_element() {
    let t = Term::Fan { fan: FanKind::Tup, tag: Tag::Static, els: vec![rf("x")] };
    let net = compile(&t).unwrap();
    assert_eq!(show(&net.root), "Ref { nam: \"x\" }");
}

#[test]
fn erased_let_becomes_a_redex_with_an_eraser() {
    let t = Term::Let { pat: Box::new(Pattern::Var(None)), val: Box::new(rf("f")), nxt: Box::new(Term::Era) };
    let net = compile(&t).unwrap();
    assert_eq!(show(&net.root), "Era");
    assert_eq!(net.rbag.len(), 1);
    assert_eq!(show(&net.rbag[0].1), "Ref { nam: \"f\" }");
    assert_eq!(show(&net.rbag[0].2), "Del");
}

#[test]
fn dup_let_connects_both_copies() {
    // let {a b} = @f; (a b)
    let t = Term::Let {
        pat: Box::new(Pattern::Fan(
            FanKind::Dup,
            Tag::Auto,
            vec![Pattern::Var(Some("a".to_string())), Pattern::Var(Some("b".to_string()))],
        )),
        val: Box::new(rf("f")),
        nxt: Box::new(app(var("a"), var("b"))),
    };
    let net = compile(&t).unwrap();
    assert_eq!(net_count(&net), 2);
    let names = net_leaf_names(&net);
    for (_, n) in &names {
        assert_eq!(names.iter().filter(|(v, m)| *v && m == n).count(), 1);
        assert_eq!(names.iter().filter(|(v, m)| !*v && m == n).count(), 1);
    }
}

#[test]
fn self_referential_dup_is_a_vicious_cycle() {
    // let {a b} = (a b); *
    let t = Term::Let {
        pat: Box::new(Pattern::Fan(
            FanKind::Dup,
            Tag::Auto,
            vec![Pattern::Var(Some("a".to_string())), Pattern::Var(Some("b".to_string()))],
        )),
        val: Box::new(app(var("a"), var("b"))),
        nxt: Box::new(Term::Era),
    };
    let err = compile(&t).unwrap_err();
    assert_eq!(err, "Found term that compiles into an inet with a vicious cycle");
}

#[test]
fn node_count_matches_the_term() {
    // λ{f g} λx (f (g x)): 2 lambdas, 1 dup node in the pattern, 2 applications
    let t = Term::Lam {
        tag: Tag::Static,
        pat: Box::new(Pattern::Fan(
            FanKind::Dup,
            Tag::Auto,
            vec![Pattern::Var(Some("f".to_string())), Pattern::Var(Some("g".to_string()))],
        )),
        bod: Box::new(lam("x", app(var("f"), app(var("g"), var("x"))))),
    };
    let net = compile(&t).unwrap();
    assert_eq!(net_count(&net), 5);
    let names = net_leaf_names(&net);
    assert_eq!(names.len(), 6);
    for (_, n) in &names {
        assert_eq!(names.iter().filter(|(v, m)| *v && m == n).count(), 1);
        assert_eq!(names.iter().filter(|(v, m)| !*v && m == n).count(), 1);
    }
}

#[test]
fn channels_link_across_scopes() {
    // λ$x $x  (an unscoped lambda using its own channel)
    let t = Term::Lam {
        tag: Tag::Static,
        pat: Box::new(Pattern::Chn("x".to_string())),
        bod: Box::new(Term::Link { nam: "x".to_string() }),
    };
    let net = compile(&t).unwrap();
    assert_eq!(show(&net.root), "Lam { fst: Sub { nam: \"a\" }, snd: Var { nam: \"a\" } }");
}

#[test]
fn duplicate_of_a_net_is_equal() {
    let net = compile(&app(rf("f"), lam("x", var("x")))).unwrap();
    let copy = net.duplicate();
    assert_eq!(format!("{:?}", copy), format!("{:?}", net));
}

#[test]
fn count_nodes_counts_binary_nodes() {
    let t = Tree::Lam {
        fst: Box::new(Tree::App { fst: Box::new(Tree::Era), snd: Box::new(Tree::Del) }),
        snd: Box::new(Tree::Var { nam: "a".to_string() }),
    };
    assert_eq!(count_nodes(&t), 2);
    assert_eq!(count_nodes(&Tree::Era), 0);
}
