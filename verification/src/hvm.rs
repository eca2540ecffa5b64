//! The target language: interaction nets made of trees and a bag of
//! redexes.
use vstd::prelude::*;

verus! {

/// The kinds of binary node the encoder creates. Tuples (`Tup`, `Ltp`)
/// are not supported as nodes.
#[derive(Clone, Copy, Debug, PartialEq, Eq, Structural)]
pub enum CtrKind {
    Lam,
    App,
    Tup,
    Ltp,
    Dup,
    Sup,
}

/// A tree of a net. `Var` and `Sub` are the two ends of a named wire.
#[derive(Debug)]
pub enum Tree {
    Era,
    Del,
    Ref { nam: String },
    Var { nam: String },
    Sub { nam: String },
    Lam { fst: Box<Tree>, snd: Box<Tree> },
    App { fst: Box<Tree>, snd: Box<Tree> },
    Dup { fst: Box<Tree>, snd: Box<Tree> },
    Sup { fst: Box<Tree>, snd: Box<Tree> },
}

/// The mathematical value of a tree: names are sequences of characters.
pub enum TreeV {
    Era,
    Del,
    Ref(Seq<char>),
    Var(Seq<char>),
    Sub(Seq<char>),
    Lam(Box<TreeV>, Box<TreeV>),
    App(Box<TreeV>, Box<TreeV>),
    Dup(Box<TreeV>, Box<TreeV>),
    Sup(Box<TreeV>, Box<TreeV>),
}

pub open spec fn tree_view(t: Tree) -> TreeV
    decreases t,
{
    match t {
        Tree::Era => TreeV::Era,
        Tree::Del => TreeV::Del,
        Tree::Ref { nam } => TreeV::Ref(nam@),
        Tree::Var { nam } => TreeV::Var(nam@),
        Tree::Sub { nam } => TreeV::Sub(nam@),
        Tree::Lam { fst, snd } => TreeV::Lam(
            Box::new(tree_view(*fst)),
            Box::new(tree_view(*snd)),
        ),
        Tree::App { fst, snd } => TreeV::App(
            Box::new(tree_view(*fst)),
            Box::new(tree_view(*snd)),
        ),
        Tree::Dup { fst, snd } => TreeV::Dup(
            Box::new(tree_view(*fst)),
            Box::new(tree_view(*snd)),
        ),
        Tree::Sup { fst, snd } => TreeV::Sup(
            Box::new(tree_view(*fst)),
            Box::new(tree_view(*snd)),
        ),
    }
}

impl View for Tree {
    type V = TreeV;

    open spec fn view(&self) -> TreeV {
        tree_view(*self)
    }
}

/// The binary node of a given kind over two subtrees.
pub open spec fn node_of(kind: CtrKind, fst: TreeV, snd: TreeV) -> TreeV {
    match kind {
        CtrKind::Lam => TreeV::Lam(Box::new(fst), Box::new(snd)),
        CtrKind::App => TreeV::App(Box::new(fst), Box::new(snd)),
        CtrKind::Dup => TreeV::Dup(Box::new(fst), Box::new(snd)),
        CtrKind::Sup => TreeV::Sup(Box::new(fst), Box::new(snd)),
        _ => TreeV::Era,
    }
}

/// The kind of the binary node at the top of a tree, if it is one.
pub open spec fn tree_kind(t: TreeV) -> Option<CtrKind> {
    match t {
        TreeV::Lam(_, _) => Some(CtrKind::Lam),
        TreeV::App(_, _) => Some(CtrKind::App),
        TreeV::Dup(_, _) => Some(CtrKind::Dup),
        TreeV::Sup(_, _) => Some(CtrKind::Sup),
        _ => None,
    }
}

/// The subtree at the first port of the node at the top of a tree.
pub open spec fn tree_fst(t: TreeV) -> TreeV {
    match t {
        TreeV::Lam(a, _) => *a,
        TreeV::App(a, _) => *a,
        TreeV::Dup(a, _) => *a,
        TreeV::Sup(a, _) => *a,
        _ => TreeV::Era,
    }
}

/// The subtree at the second port of the node at the top of a tree.
pub open spec fn tree_snd(t: TreeV) -> TreeV {
    match t {
        TreeV::Lam(_, b) => *b,
        TreeV::App(_, b) => *b,
        TreeV::Dup(_, b) => *b,
        TreeV::Sup(_, b) => *b,
        _ => TreeV::Era,
    }
}

/// The kinds of binary node a tree can hold.
pub open spec fn is_node_kind(k: CtrKind) -> bool {
    k == CtrKind::Lam || k == CtrKind::App || k == CtrKind::Dup || k == CtrKind::Sup
}

/// A node built over two subtrees has the kind it was built with, keeps
/// the first subtree at its first port and the second at its second port,
/// and adds exactly one node to them.
pub proof fn lemma_node_of_ports(kind: CtrKind, fst: TreeV, snd: TreeV)
    requires
        is_node_kind(kind),
    ensures
        tree_kind(node_of(kind, fst, snd)) == Some(kind),
        tree_fst(node_of(kind, fst, snd)) == fst,
        tree_snd(node_of(kind, fst, snd)) == snd,
        tree_nodes(node_of(kind, fst, snd)) == 1 + tree_nodes(fst) + tree_nodes(snd),
{
}

/// Number of binary nodes in a tree.
pub open spec fn tree_nodes(t: TreeV) -> nat
    decreases t,
{
    match t {
        TreeV::Lam(a, b) => 1 + tree_nodes(*a) + tree_nodes(*b),
        TreeV::App(a, b) => 1 + tree_nodes(*a) + tree_nodes(*b),
        TreeV::Dup(a, b) => 1 + tree_nodes(*a) + tree_nodes(*b),
        TreeV::Sup(a, b) => 1 + tree_nodes(*a) + tree_nodes(*b),
        _ => 0,
    }
}

/// Number of binary nodes of kind `k` in a tree.
pub open spec fn tree_kind_nodes(t: TreeV, k: CtrKind) -> nat
    decreases t,
{
    match t {
        TreeV::Lam(a, b) => (if k == CtrKind::Lam {
            1nat
        } else {
            0nat
        }) + tree_kind_nodes(*a, k) + tree_kind_nodes(*b, k),
        TreeV::App(a, b) => (if k == CtrKind::App {
            1nat
        } else {
            0nat
        }) + tree_kind_nodes(*a, k) + tree_kind_nodes(*b, k),
        TreeV::Dup(a, b) => (if k == CtrKind::Dup {
            1nat
        } else {
            0nat
        }) + tree_kind_nodes(*a, k) + tree_kind_nodes(*b, k),
        TreeV::Sup(a, b) => (if k == CtrKind::Sup {
            1nat
        } else {
            0nat
        }) + tree_kind_nodes(*a, k) + tree_kind_nodes(*b, k),
        _ => 0,
    }
}

/// Occurrences of `Var` leaves named `name` in a tree.
pub open spec fn tree_vars(t: TreeV, name: Seq<char>) -> nat
    decreases t,
{
    match t {
        TreeV::Var(n) => if n == name {
            1
        } else {
            0
        },
        TreeV::Lam(a, b) => tree_vars(*a, name) + tree_vars(*b, name),
        TreeV::App(a, b) => tree_vars(*a, name) + tree_vars(*b, name),
        TreeV::Dup(a, b) => tree_vars(*a, name) + tree_vars(*b, name),
        TreeV::Sup(a, b) => tree_vars(*a, name) + tree_vars(*b, name),
        _ => 0,
    }
}

/// Occurrences of `Sub` leaves named `name` in a tree.
pub open spec fn tree_subs(t: TreeV, name: Seq<char>) -> nat
    decreases t,
{
    match t {
        TreeV::Sub(n) => if n == name {
            1
        } else {
            0
        },
        TreeV::Lam(a, b) => tree_subs(*a, name) + tree_subs(*b, name),
        TreeV::App(a, b) => tree_subs(*a, name) + tree_subs(*b, name),
        TreeV::Dup(a, b) => tree_subs(*a, name) + tree_subs(*b, name),
        TreeV::Sup(a, b) => tree_subs(*a, name) + tree_subs(*b, name),
        _ => 0,
    }
}

/// A net: a root tree and a bag of redexes, each a pair of trees to be
/// connected (the flag marks redexes that are safe to duplicate).
#[derive(Debug)]
pub struct Net {
    pub root: Tree,
    pub rbag: Vec<(bool, Tree, Tree)>,
}

pub struct NetV {
    pub root: TreeV,
    pub rbag: Seq<(bool, TreeV, TreeV)>,
}

impl View for Net {
    type V = NetV;

    open spec fn view(&self) -> NetV {
        NetV {
            root: self.root@,
            rbag: self.rbag@.map_values(|r: (bool, Tree, Tree)| (r.0, r.1@, r.2@)),
        }
    }
}

/// Binary nodes in the trees of the redexes.
pub open spec fn rbag_nodes(rbag: Seq<(bool, TreeV, TreeV)>) -> nat
    decreases rbag.len(),
{
    if rbag.len() == 0 {
        0
    } else {
        tree_nodes(rbag[0].1) + tree_nodes(rbag[0].2) + rbag_nodes(rbag.drop_first())
    }
}

/// Binary nodes of kind `k` in the trees of the redexes.
pub open spec fn rbag_kind_nodes(rbag: Seq<(bool, TreeV, TreeV)>, k: CtrKind) -> nat
    decreases rbag.len(),
{
    if rbag.len() == 0 {
        0
    } else {
        tree_kind_nodes(rbag[0].1, k) + tree_kind_nodes(rbag[0].2, k) + rbag_kind_nodes(
            rbag.drop_first(),
            k,
        )
    }
}

/// `Var` leaves named `name` in the trees of the redexes.
pub open spec fn rbag_vars(rbag: Seq<(bool, TreeV, TreeV)>, name: Seq<char>) -> nat
    decreases rbag.len(),
{
    if rbag.len() == 0 {
        0
    } else {
        tree_vars(rbag[0].1, name) + tree_vars(rbag[0].2, name) + rbag_vars(
            rbag.drop_first(),
            name,
        )
    }
}

/// `Sub` leaves named `name` in the trees of the redexes.
pub open spec fn rbag_subs(rbag: Seq<(bool, TreeV, TreeV)>, name: Seq<char>) -> nat
    decreases rbag.len(),
{
    if rbag.len() == 0 {
        0
    } else {
        tree_subs(rbag[0].1, name) + tree_subs(rbag[0].2, name) + rbag_subs(
            rbag.drop_first(),
            name,
        )
    }
}

/// Number of binary nodes in a net.
pub open spec fn net_nodes(n: NetV) -> nat {
    tree_nodes(n.root) + rbag_nodes(n.rbag)
}

/// Number of binary nodes of kind `k` in a net.
pub open spec fn net_kind_nodes(n: NetV, k: CtrKind) -> nat {
    tree_kind_nodes(n.root, k) + rbag_kind_nodes(n.rbag, k)
}

/// Occurrences of `Var` leaves named `name` in a net.
pub open spec fn net_vars(n: NetV, name: Seq<char>) -> nat {
    tree_vars(n.root, name) + rbag_vars(n.rbag, name)
}

/// Occurrences of `Sub` leaves named `name` in a net.
pub open spec fn net_subs(n: NetV, name: Seq<char>) -> nat {
    tree_subs(n.root, name) + rbag_subs(n.rbag, name)
}

/// Counts the binary nodes of a tree.
pub fn count_nodes(tree: &Tree) -> (n: usize)
    requires
        tree_nodes(tree@) <= usize::MAX,
    ensures
        n == tree_nodes(tree@),
    decreases tree,
{
    match tree {
        Tree::Lam { fst, snd } | Tree::App { fst, snd } | Tree::Dup { fst, snd } | Tree::Sup {
            fst,
            snd,
        } => 1 + count_nodes(fst) + count_nodes(snd),
        _ => 0,
    }
}

impl Tree {
    /// A copy of the tree.
    pub fn duplicate(&self) -> (t: Tree)
        ensures
            t@ == self@,
        decreases self,
    {
        match self {
            Tree::Era => Tree::Era,
            Tree::Del => Tree::Del,
            Tree::Ref { nam } => Tree::Ref { nam: nam.clone() },
            Tree::Var { nam } => Tree::Var { nam: nam.clone() },
            Tree::Sub { nam } => Tree::Sub { nam: nam.clone() },
            Tree::Lam { fst, snd } => Tree::Lam {
                fst: Box::new(fst.duplicate()),
                snd: Box::new(snd.duplicate()),
            },
            Tree::App { fst, snd } => Tree::App {
                fst: Box::new(fst.duplicate()),
                snd: Box::new(snd.duplicate()),
            },
            Tree::Dup { fst, snd } => Tree::Dup {
                fst: Box::new(fst.duplicate()),
                snd: Box::new(snd.duplicate()),
            },
            Tree::Sup { fst, snd } => Tree::Sup {
                fst: Box::new(fst.duplicate()),
                snd: Box::new(snd.duplicate()),
            },
        }
    }
}

impl Net {
    /// A copy of the net.
    pub fn duplicate(&self) -> (n: Net)
        ensures
            n@ == self@,
    {
        let mut rbag: Vec<(bool, Tree, Tree)> = Vec::new();
        let mut i: usize = 0;
        while i < self.rbag.len()
            invariant
                i <= self.rbag.len(),
                rbag@.len() == i,
                forall|j: int|
                    0 <= j < i ==> #[trigger] rbag@[j].0 == self.rbag@[j].0 && rbag@[j].1@
                        == self.rbag@[j].1@ && rbag@[j].2@ == self.rbag@[j].2@,
            decreases self.rbag.len() - i,
        {
            let r = &self.rbag[i];
            rbag.push((r.0, r.1.duplicate(), r.2.duplicate()));
            i = i + 1;
        }
        let n = Net { root: self.root.duplicate(), rbag };
        assert(n@.rbag =~= self@.rbag);
        n
    }
}

/// A compiled book: named nets, each name at most once.
#[derive(Debug)]
pub struct Book {
    pub defs: Vec<(String, Net)>,
}

/// No name occurs twice.
pub open spec fn names_unique(defs: Seq<(String, Net)>) -> bool {
    forall|i: int, j: int|
        0 <= i < defs.len() && 0 <= j < defs.len() && i != j ==> #[trigger] defs[i].0@
            != #[trigger] defs[j].0@
}

/// The named nets as a map.
pub open spec fn defs_map(defs: Seq<(String, Net)>) -> Map<Seq<char>, NetV>
    decreases defs.len(),
{
    if defs.len() == 0 {
        Map::empty()
    } else {
        defs_map(defs.drop_last()).insert(defs.last().0@, defs.last().1@)
    }
}

pub proof fn lemma_defs_map_update(defs: Seq<(String, Net)>, i: int, x: (String, Net))
    requires
        names_unique(defs),
        0 <= i < defs.len(),
        x.0@ == defs[i].0@,
    ensures
        defs_map(defs.update(i, x)) == defs_map(defs).insert(x.0@, x.1@),
        names_unique(defs.update(i, x)),
    decreases defs.len(),
{
    let d1 = defs.update(i, x);
    if i == defs.len() - 1 {
        assert(d1.drop_last() =~= defs.drop_last());
        assert(defs_map(d1) =~= defs_map(defs).insert(x.0@, x.1@));
    } else {
        assert(d1.drop_last() =~= defs.drop_last().update(i, x));
        lemma_defs_map_update(defs.drop_last(), i, x);
        assert(defs.last().0@ != defs[i].0@);
        assert(defs_map(d1) =~= defs_map(defs).insert(x.0@, x.1@));
    }
    assert forall|a: int, b: int|
        0 <= a < d1.len() && 0 <= b < d1.len() && a != b implies #[trigger] d1[a].0@
        != #[trigger] d1[b].0@ by {
        assert(defs[a].0@ != defs[b].0@);
    }
}

impl Book {
    /// A book with no definitions.
    pub fn new() -> (b: Book)
        ensures
            b.defs@.len() == 0,
    {
        Book { defs: Vec::new() }
    }

    /// The definitions as a map from names to nets.
    pub open spec fn view_map(&self) -> Map<Seq<char>, NetV> {
        defs_map(self.defs@)
    }

    /// Sets the net of a name, replacing the one it had.
    pub fn insert(&mut self, name: String, net: Net)
        requires
            names_unique(old(self).defs@),
        ensures
            names_unique(final(self).defs@),
            final(self).view_map() == old(self).view_map().insert(name@, net@),
    {
        let n = self.defs.len();
        let mut i: usize = 0;
        while i < n
            invariant
                i <= n,
                n == self.defs.len(),
                forall|j: int| 0 <= j < i ==> self.defs@[j].0@ != name@,
            ensures
                i <= n,
                forall|j: int| 0 <= j < i ==> self.defs@[j].0@ != name@,
                i < n ==> self.defs@[i as int].0@ == name@,
            decreases n - i,
        {
            if self.defs[i].0 == name {
                break;
            }
            i = i + 1;
        }
        if i < n {
            let ghost old_defs = self.defs@;
            let ghost x = (name, net);
            proof {
                lemma_defs_map_update(old_defs, i as int, x);
            }
            self.defs.set(i, (name, net));
        } else {
            let ghost old_defs = self.defs@;
            self.defs.push((name, net));
            assert(self.defs@.drop_last() =~= old_defs);
            assert forall|a: int, b: int|
                0 <= a < self.defs@.len() && 0 <= b < self.defs@.len() && a != b implies #[trigger] self.defs@[a].0@
                != #[trigger] self.defs@[b].0@ by {
                if a < n as int && b < n as int {
                    assert(old_defs[a].0@ != old_defs[b].0@);
                }
            }
        }
    }
}

} // verus!
