//! The source language: lambda-calculus terms and their patterns, as this
//! pass reads them.
use vstd::prelude::*;
use crate::hvm::CtrKind;

verus! {

/// A variable or definition name.
pub type Name = String;

/// The label annotation carried by lambdas, applications and fans.
#[derive(Debug)]
pub enum Tag {
    Named(Name),
    Numeric(u16),
    Auto,
    Static,
}

/// The two kinds of fan: tuples and superpositions/duplications.
#[derive(Clone, Copy, Debug, PartialEq, Eq, Structural)]
pub enum FanKind {
    Tup,
    Dup,
}

/// A binding pattern.
#[derive(Debug)]
pub enum Pattern {
    /// A variable binder; `None` discards the bound value.
    Var(Option<Name>),
    /// A channel (unscoped) binder.
    Chn(Name),
    /// A fan of sub-patterns.
    Fan(FanKind, Tag, Vec<Pattern>),
    /// A constructor pattern (removed by earlier passes).
    Ctr(Name, Vec<Pattern>),
    /// A number pattern (removed by earlier passes).
    Num(u32),
    /// A list pattern (removed by earlier passes).
    Lst(Vec<Pattern>),
    /// A string pattern (removed by earlier passes).
    Str(Name),
}

/// A term. The forms after `Fan` are removed by earlier passes or are not
/// supported by this encoder; their contents are not read here.
#[derive(Debug)]
pub enum Term {
    Era,
    Var { nam: Name },
    Link { nam: Name },
    Ref { nam: Name },
    Lam { tag: Tag, pat: Box<Pattern>, bod: Box<Term> },
    App { tag: Tag, fun: Box<Term>, arg: Box<Term> },
    Let { pat: Box<Pattern>, val: Box<Term>, nxt: Box<Term> },
    Fan { fan: FanKind, tag: Tag, els: Vec<Term> },
    Num,
    Nat,
    Str,
    Swt,
    Oper,
    Use,
    With,
    Ask,
    Mat,
    Bend,
    Fold,
    Open,
    List,
    Def,
    Error,
}

// ---------------------------------------------------------------------------
// Sizes (termination measures)

pub open spec fn pat_size(p: Pattern) -> nat
    decreases p,
{
    match p {
        Pattern::Fan(_, _, els) => 1 + pats_size(els@, 0),
        _ => 1,
    }
}

pub open spec fn pats_size(s: Seq<Pattern>, i: int) -> nat
    decreases s, s.len() - i,
{
    if i < 0 || i >= s.len() {
        0
    } else {
        pat_size(s[i]) + pats_size(s, i + 1)
    }
}

pub open spec fn term_size(t: Term) -> nat
    decreases t,
{
    match t {
        Term::Lam { pat, bod, .. } => 1 + pat_size(*pat) + term_size(*bod),
        Term::App { fun, arg, .. } => 1 + term_size(*fun) + term_size(*arg),
        Term::Let { pat, val, nxt } => 1 + pat_size(*pat) + term_size(*val) + term_size(*nxt),
        Term::Fan { els, .. } => 1 + terms_size(els@, 0),
        _ => 1,
    }
}

pub open spec fn terms_size(s: Seq<Term>, i: int) -> nat
    decreases s, s.len() - i,
{
    if i < 0 || i >= s.len() {
        0
    } else {
        term_size(s[i]) + terms_size(s, i + 1)
    }
}

// ---------------------------------------------------------------------------
// Node counts: how many binary nodes the encoding of a term creates

/// Nodes created by encoding a pattern: a fan of `k` sub-patterns is a chain
/// of `k - 1` nodes.
pub open spec fn pat_nodes(p: Pattern) -> nat
    decreases p,
{
    match p {
        Pattern::Fan(_, _, els) => if els.len() == 0 {
            0
        } else {
            (els.len() - 1) as nat + pats_nodes(els@, 0)
        },
        _ => 0,
    }
}

pub open spec fn pats_nodes(s: Seq<Pattern>, i: int) -> nat
    decreases s, s.len() - i,
{
    if i < 0 || i >= s.len() {
        0
    } else {
        pat_nodes(s[i]) + pats_nodes(s, i + 1)
    }
}

/// Nodes created by encoding a term: one per lambda and application, a chain
/// of `k - 1` per fan of `k` elements, and those of the patterns.
pub open spec fn term_nodes(t: Term) -> nat
    decreases t,
{
    match t {
        Term::Lam { pat, bod, .. } => 1 + pat_nodes(*pat) + term_nodes(*bod),
        Term::App { fun, arg, .. } => 1 + term_nodes(*fun) + term_nodes(*arg),
        Term::Let { pat, val, nxt } => pat_nodes(*pat) + term_nodes(*val) + term_nodes(*nxt),
        Term::Fan { els, .. } => if els.len() == 0 {
            0
        } else {
            (els.len() - 1) as nat + terms_nodes(els@, 0)
        },
        _ => 0,
    }
}

pub open spec fn terms_nodes(s: Seq<Term>, i: int) -> nat
    decreases s, s.len() - i,
{
    if i < 0 || i >= s.len() {
        0
    } else {
        term_nodes(s[i]) + terms_nodes(s, i + 1)
    }
}

/// Nodes of kind `k` created by encoding a pattern: a pattern fan of `n`
/// sub-patterns is a chain of `n - 1` nodes, `Dup` nodes for a duplication
/// and `Ltp` nodes for a tuple.
pub open spec fn pat_kind_nodes(p: Pattern, k: CtrKind) -> nat
    decreases p,
{
    match p {
        Pattern::Fan(fan, _, els) => (if els.len() > 0 && ((fan == FanKind::Dup && k == CtrKind::Dup)
            || (fan == FanKind::Tup && k == CtrKind::Ltp)) {
            (els.len() - 1) as nat
        } else {
            0nat
        }) + pats_kind_nodes(els@, 0, k),
        _ => 0,
    }
}

pub open spec fn pats_kind_nodes(s: Seq<Pattern>, i: int, k: CtrKind) -> nat
    decreases s, s.len() - i,
{
    if i < 0 || i >= s.len() {
        0
    } else {
        pat_kind_nodes(s[i], k) + pats_kind_nodes(s, i + 1, k)
    }
}

/// Nodes of kind `k` created by encoding a term: a `Lam` node per lambda,
/// an `App` node per application, and for a term fan of `n` elements a
/// chain of `n - 1` nodes, `Sup` nodes for a superposition and `Tup` nodes
/// for a tuple; and those of the patterns.
pub open spec fn term_kind_nodes(t: Term, k: CtrKind) -> nat
    decreases t,
{
    match t {
        Term::Lam { pat, bod, .. } => (if k == CtrKind::Lam {
            1nat
        } else {
            0nat
        }) + pat_kind_nodes(*pat, k) + term_kind_nodes(*bod, k),
        Term::App { fun, arg, .. } => (if k == CtrKind::App {
            1nat
        } else {
            0nat
        }) + term_kind_nodes(*fun, k) + term_kind_nodes(*arg, k),
        Term::Let { pat, val, nxt } => pat_kind_nodes(*pat, k) + term_kind_nodes(*val, k)
            + term_kind_nodes(*nxt, k),
        Term::Fan { fan, els, .. } => (if els.len() > 0 && ((fan == FanKind::Dup && k
            == CtrKind::Sup) || (fan == FanKind::Tup && k == CtrKind::Tup)) {
            (els.len() - 1) as nat
        } else {
            0nat
        }) + terms_kind_nodes(els@, 0, k),
        _ => 0,
    }
}

pub open spec fn terms_kind_nodes(s: Seq<Term>, i: int, k: CtrKind) -> nat
    decreases s, s.len() - i,
{
    if i < 0 || i >= s.len() {
        0
    } else {
        term_kind_nodes(s[i], k) + terms_kind_nodes(s, i + 1, k)
    }
}

// ---------------------------------------------------------------------------
// The forms the encoder accepts

/// A fan can be encoded when it is non-empty, and a tuple fan only when it
/// has a single element (tuple nodes are not supported).
pub open spec fn fan_shape_ok(fan: FanKind, len: nat) -> bool {
    len >= 1 && (fan == FanKind::Dup || len == 1)
}

pub open spec fn pat_encodable(p: Pattern) -> bool
    decreases p,
{
    match p {
        Pattern::Var(_) => true,
        Pattern::Chn(_) => true,
        Pattern::Fan(fan, _, els) => fan_shape_ok(fan, els.len() as nat) && pats_encodable(els@, 0),
        _ => false,
    }
}

pub open spec fn pats_encodable(s: Seq<Pattern>, i: int) -> bool
    decreases s, s.len() - i,
{
    if i < 0 || i >= s.len() {
        true
    } else {
        pat_encodable(s[i]) && pats_encodable(s, i + 1)
    }
}

/// The terms the encoder accepts: variables, links, references, erasers,
/// lambdas, applications, lets and supported fans, built from encodable
/// parts. Numbers, operators and the forms that earlier passes remove are
/// not encodable.
pub open spec fn term_encodable(t: Term) -> bool
    decreases t,
{
    match t {
        Term::Era => true,
        Term::Var { .. } => true,
        Term::Link { .. } => true,
        Term::Ref { .. } => true,
        Term::Lam { pat, bod, .. } => pat_encodable(*pat) && term_encodable(*bod),
        Term::App { fun, arg, .. } => term_encodable(*fun) && term_encodable(*arg),
        Term::Let { pat, val, nxt } => pat_encodable(*pat) && term_encodable(*val)
            && term_encodable(*nxt),
        Term::Fan { fan, els, .. } => fan_shape_ok(fan, els.len() as nat) && terms_encodable(
            els@,
            0,
        ),
        _ => false,
    }
}

pub open spec fn terms_encodable(s: Seq<Term>, i: int) -> bool
    decreases s, s.len() - i,
{
    if i < 0 || i >= s.len() {
        true
    } else {
        term_encodable(s[i]) && terms_encodable(s, i + 1)
    }
}

// ---------------------------------------------------------------------------
// Linearity of variables

/// How many binders of `(global, name)` a pattern holds: `Var` binds
/// scoped variables, `Chn` binds global ones.
pub open spec fn pat_binds(p: Pattern, global: bool, name: Seq<char>) -> nat
    decreases p,
{
    match p {
        Pattern::Var(Some(x)) => if !global && x@ == name {
            1
        } else {
            0
        },
        Pattern::Chn(x) => if global && x@ == name {
            1
        } else {
            0
        },
        Pattern::Fan(_, _, els) => pats_binds(els@, 0, global, name),
        _ => 0,
    }
}

pub open spec fn pats_binds(s: Seq<Pattern>, i: int, global: bool, name: Seq<char>) -> nat
    decreases s, s.len() - i,
{
    if i < 0 || i >= s.len() {
        0
    } else {
        pat_binds(s[i], global, name) + pats_binds(s, i + 1, global, name)
    }
}

/// How many binders of `(global, name)` a term holds.
pub open spec fn term_binds(t: Term, global: bool, name: Seq<char>) -> nat
    decreases t,
{
    match t {
        Term::Lam { pat, bod, .. } => pat_binds(*pat, global, name) + term_binds(
            *bod,
            global,
            name,
        ),
        Term::App { fun, arg, .. } => term_binds(*fun, global, name) + term_binds(
            *arg,
            global,
            name,
        ),
        Term::Let { pat, val, nxt } => pat_binds(*pat, global, name) + term_binds(
            *val,
            global,
            name,
        ) + term_binds(*nxt, global, name),
        Term::Fan { els, .. } => terms_binds(els@, 0, global, name),
        _ => 0,
    }
}

pub open spec fn terms_binds(s: Seq<Term>, i: int, global: bool, name: Seq<char>) -> nat
    decreases s, s.len() - i,
{
    if i < 0 || i >= s.len() {
        0
    } else {
        term_binds(s[i], global, name) + terms_binds(s, i + 1, global, name)
    }
}

/// How many uses of `(global, name)` a term holds: `Var` uses scoped
/// variables, `Link` uses global ones.
pub open spec fn term_uses(t: Term, global: bool, name: Seq<char>) -> nat
    decreases t,
{
    match t {
        Term::Var { nam } => if !global && nam@ == name {
            1
        } else {
            0
        },
        Term::Link { nam } => if global && nam@ == name {
            1
        } else {
            0
        },
        Term::Lam { bod, .. } => term_uses(*bod, global, name),
        Term::App { fun, arg, .. } => term_uses(*fun, global, name) + term_uses(
            *arg,
            global,
            name,
        ),
        Term::Let { val, nxt, .. } => term_uses(*val, global, name) + term_uses(
            *nxt,
            global,
            name,
        ),
        Term::Fan { els, .. } => terms_uses(els@, 0, global, name),
        _ => 0,
    }
}

pub open spec fn terms_uses(s: Seq<Term>, i: int, global: bool, name: Seq<char>) -> nat
    decreases s, s.len() - i,
{
    if i < 0 || i >= s.len() {
        0
    } else {
        term_uses(s[i], global, name) + terms_uses(s, i + 1, global, name)
    }
}

/// All occurrences, binders and uses, of `(global, name)` in a term.
pub open spec fn term_occ(t: Term, global: bool, name: Seq<char>) -> nat {
    term_binds(t, global, name) + term_uses(t, global, name)
}

/// Every variable of the term is bound exactly once and used exactly once,
/// and every used variable is bound.
pub open spec fn vars_linear(t: Term) -> bool {
    forall|global: bool, name: Seq<char>|
        #![trigger term_binds(t, global, name)]
        #![trigger term_uses(t, global, name)]
        term_binds(t, global, name) <= 1 && term_uses(t, global, name) == term_binds(
            t,
            global,
            name,
        )
}

// ---------------------------------------------------------------------------
// Facts about the element-wise definitions

pub proof fn lemma_terms_size_ge(s: Seq<Term>, i: int, j: int)
    requires
        0 <= i <= j < s.len(),
    ensures
        terms_size(s, i) >= term_size(s[j]),
    decreases j - i,
{
    if i < j {
        lemma_terms_size_ge(s, i + 1, j);
    }
}

pub proof fn lemma_terms_encodable(s: Seq<Term>, i: int, j: int)
    requires
        0 <= i <= j < s.len(),
        terms_encodable(s, i),
    ensures
        term_encodable(s[j]),
    decreases j - i,
{
    if i < j {
        lemma_terms_encodable(s, i + 1, j);
    }
}

pub proof fn lemma_pats_encodable(s: Seq<Pattern>, i: int, j: int)
    requires
        0 <= i <= j < s.len(),
        pats_encodable(s, i),
    ensures
        pat_encodable(s[j]),
    decreases j - i,
{
    if i < j {
        lemma_pats_encodable(s, i + 1, j);
    }
}

/// Every pending let can be encoded.
pub open spec fn lets_encodable(lets: Seq<(Pattern, Term)>) -> bool {
    forall|i: int|
        0 <= i < lets.len() ==> pat_encodable(#[trigger] lets[i].0) && term_encodable(lets[i].1)
}

// ---------------------------------------------------------------------------
// Books of definitions

/// A rule of a definition; after earlier passes only its body matters here.
#[derive(Debug)]
pub struct Rule {
    pub body: Term,
}

/// A definition: a name and its rules.
#[derive(Debug)]
pub struct Definition {
    pub name: Name,
    pub rules: Vec<Rule>,
}

/// A definition given directly as a net.
#[derive(Debug)]
pub struct HvmDefinition {
    pub name: Name,
    pub body: crate::hvm::Net,
}

/// A program: its definitions, its definitions given as nets, and the name
/// of its entry point.
#[derive(Debug)]
pub struct Book {
    pub defs: Vec<Definition>,
    pub hvm_defs: Vec<HvmDefinition>,
    pub entrypoint: Option<Name>,
}

/// The name the entry point gets in the compiled book: `main`, whether it
/// was called `main`, `Main`, or not given; otherwise its own name.
pub open spec fn spec_hvm_entrypoint(entrypoint: Option<Name>) -> Seq<char> {
    match entrypoint {
        None => "main"@,
        Some(n) => if n@ == "main"@ || n@ == "Main"@ {
            "main"@
        } else {
            n@
        },
    }
}

impl Book {
    /// The name of the entry point in the compiled book.
    pub fn hvm_entrypoint(&self) -> (r: String)
        ensures
            r@ == spec_hvm_entrypoint(self.entrypoint),
    {
        match &self.entrypoint {
            None => String::from_str("main"),
            Some(n) => {
                let main_lower = String::from_str("main");
                let main_upper = String::from_str("Main");
                if *n == main_lower || *n == main_upper {
                    main_lower
                } else {
                    n.clone()
                }
            },
        }
    }
}

} // verus!
