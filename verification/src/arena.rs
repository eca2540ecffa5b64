//! The encoding of a term into a net, as mathematical functions.
//!
//! The net is built in an arena: every created tree is a cell, every binary
//! node cell holds its two ports ("holes"), which are filled as the encoding
//! links places together. Once the whole term is encoded, the trees are read
//! out of the arena, starting from the root hole and the redexes.
use vstd::prelude::*;
use vstd::multiset::Multiset;
use crate::fun::{
    FanKind, Pattern, Tag, Term, pat_binds, pat_kind_nodes, pat_nodes, pat_size, pats_kind_nodes,
    term_kind_nodes, term_nodes, term_occ, term_size, terms_kind_nodes, terms_size,
};
use crate::hvm::{
    CtrKind, NetV, TreeV, lemma_node_of_ports, net_kind_nodes, net_nodes, net_subs, net_vars,
    node_of, rbag_kind_nodes, rbag_nodes, rbag_subs, rbag_vars, tree_fst, tree_kind,
    tree_kind_nodes, tree_nodes, tree_snd, tree_subs, tree_vars,
};
use crate::names::{lemma_num_to_name_injective, spec_num_to_name};

verus! {

// ===========================================================================
// The arena, as mathematical values
// ===========================================================================

/// A place that can be linked to another: a whole tree (a cell), a port of
/// a node cell (`Hole(cell, second)`), the root of the net, or one end of a
/// wire that joins two places.
pub enum SPlace {
    Tree(nat),
    Hole(nat, bool),
    Root,
    Wire(nat),
}

/// What a port holds: nothing yet (read as an eraser), a tree, or one end of
/// the `i`-th named wire.
pub enum SFill {
    Era,
    Cell(nat),
    Var(nat),
    Sub(nat),
}

/// A tree of the arena: a leaf, or a binary node with its two ports.
pub enum SCell {
    Era,
    Del,
    Ref(Seq<char>),
    Node(CtrKind, SFill, SFill),
}

/// The encoder's state (pending lets aside).
pub struct SState {
    pub vars: Seq<(bool, Seq<char>, SPlace)>,
    pub wires: Seq<Option<SPlace>>,
    pub cells: Seq<SCell>,
    pub root: SFill,
    pub redexes: Seq<(nat, nat)>,
    pub name_idx: nat,
    pub created: nat,
}

/// The state the encoding of a term starts from.
pub open spec fn initial_state() -> SState {
    SState {
        vars: Seq::empty(),
        wires: Seq::empty(),
        cells: Seq::empty(),
        root: SFill::Era,
        redexes: Seq::empty(),
        name_idx: 0,
        created: 0,
    }
}

/// The size of the pending lets: a termination measure.
pub open spec fn lets_size(lets: Seq<(Pattern, Term)>) -> nat
    decreases lets.len(),
{
    if lets.len() == 0 {
        0
    } else {
        lets_size(lets.drop_last()) + pat_size(lets.last().0) + term_size(lets.last().1)
    }
}

/// Nodes created by encoding the pending lets.
pub open spec fn lets_nodes(lets: Seq<(Pattern, Term)>) -> nat
    decreases lets.len(),
{
    if lets.len() == 0 {
        0
    } else {
        lets_nodes(lets.drop_last()) + pat_nodes(lets.last().0) + term_nodes(lets.last().1)
    }
}

/// The number of wires holding one end: a termination measure for linking.
pub open spec fn count_some(ws: Seq<Option<SPlace>>) -> nat
    decreases ws.len(),
{
    if ws.len() == 0 {
        0
    } else {
        count_some(ws.drop_last()) + if ws.last() is Some {
            1nat
        } else {
            0nat
        }
    }
}

/// Taking the held end out of a wire lowers the measure.
pub proof fn lemma_count_some_take(ws: Seq<Option<SPlace>>, w: int)
    requires
        0 <= w < ws.len(),
        ws[w] is Some,
    ensures
        count_some(ws.update(w, None)) + 1 == count_some(ws),
    decreases ws.len(),
{
    if w < ws.len() - 1 {
        assert(ws.update(w, None).drop_last() =~= ws.drop_last().update(w, None));
        lemma_count_some_take(ws.drop_last(), w);
    } else {
        assert(ws.update(w, None).drop_last() =~= ws.drop_last());
    }
}

// ---------------------------------------------------------------------------
// Elementary steps

/// Adds a leaf tree; returns the place of the new tree.
pub open spec fn new_leaf(s: SState, cell: SCell) -> (SState, SPlace) {
    (SState { cells: s.cells.push(cell), ..s }, SPlace::Tree(s.cells.len()))
}

/// Adds a node of the given kind with two empty ports; returns the places of
/// the node itself and of its two ports.
pub open spec fn new_ctr(s: SState, kind: CtrKind) -> (SState, SPlace, SPlace, SPlace) {
    let c = s.cells.len();
    (
        SState {
            cells: s.cells.push(SCell::Node(kind, SFill::Era, SFill::Era)),
            created: s.created + 1,
            ..s
        },
        SPlace::Tree(c),
        SPlace::Hole(c, false),
        SPlace::Hole(c, true),
    )
}

/// Opens a new wire; returns its index.
pub open spec fn new_wire(s: SState) -> (SState, nat) {
    (SState { wires: s.wires.push(None), ..s }, s.wires.len())
}

/// Writes `f` into the port or root `hole`.
pub open spec fn set_fill(s: SState, hole: SPlace, f: SFill) -> SState {
    match hole {
        SPlace::Root => SState { root: f, ..s },
        SPlace::Hole(c, second) => if c < s.cells.len() {
            match s.cells[c as int] {
                SCell::Node(k, a, b) => SState {
                    cells: s.cells.update(
                        c as int,
                        if second {
                            SCell::Node(k, a, f)
                        } else {
                            SCell::Node(k, f, b)
                        },
                    ),
                    ..s
                },
                _ => s,
            }
        } else {
            s
        },
        _ => s,
    }
}

/// A place that can be written: a node's port or the root.
pub open spec fn is_hole(p: SPlace) -> bool {
    p is Hole || p is Root
}

/// Connects a positive place to a negative one. Two trees become a redex; a
/// tree and a port: the tree is written into the port; two ports: they are
/// joined by a fresh named wire. A wire end holds the first place linked to
/// it until the second arrives, and then links the two.
pub open spec fn link(s: SState, pos: SPlace, neg: SPlace) -> SState
    decreases count_some(s.wires),
{
    match (pos, neg) {
        (SPlace::Wire(w), _) => if w < s.wires.len() {
            match s.wires[w as int] {
                Some(p) => {
                    proof {
                        lemma_count_some_take(s.wires, w as int);
                    }
                    link(SState { wires: s.wires.update(w as int, None), ..s }, p, neg)
                },
                None => SState { wires: s.wires.update(w as int, Some(neg)), ..s },
            }
        } else {
            s
        },
        (_, SPlace::Wire(w)) => if w < s.wires.len() {
            match s.wires[w as int] {
                Some(n) => {
                    proof {
                        lemma_count_some_take(s.wires, w as int);
                    }
                    link(SState { wires: s.wires.update(w as int, None), ..s }, pos, n)
                },
                None => SState { wires: s.wires.update(w as int, Some(pos)), ..s },
            }
        } else {
            s
        },
        (SPlace::Tree(p), SPlace::Tree(n)) => SState { redexes: s.redexes.push((n, p)), ..s },
        (SPlace::Tree(t), _) => set_fill(s, neg, SFill::Cell(t)),
        (_, SPlace::Tree(t)) => set_fill(s, pos, SFill::Cell(t)),
        (_, _) => {
            let s1 = set_fill(s, pos, SFill::Var(s.name_idx));
            let s2 = set_fill(s1, neg, SFill::Sub(s.name_idx));
            SState { name_idx: s.name_idx + 1, ..s2 }
        },
    }
}

/// The first entry of `vars[i..]` for the variable `(global, name)`.
pub open spec fn find_var(vars: Seq<(bool, Seq<char>, SPlace)>, global: bool, name: Seq<char>, i: int) -> Option<int>
    decreases vars.len() - i,
{
    if i < 0 || i >= vars.len() {
        None
    } else if vars[i].0 == global && vars[i].1 == name {
        Some(i)
    } else {
        find_var(vars, global, name, i + 1)
    }
}

/// The first occurrence of a variable records its place; the second links
/// its place to the recorded one.
pub open spec fn link_var(s: SState, global: bool, name: Seq<char>, place: SPlace) -> SState {
    match find_var(s.vars, global, name, 0) {
        Some(i) => if 0 <= i < s.vars.len() {
            link(SState { vars: s.vars.remove(i), ..s }, place, s.vars[i].2)
        } else {
            s
        },
        None => SState { vars: s.vars.push((global, name, place)), ..s },
    }
}

/// The node kind of a fan: positive fans (in terms) and negative fans (in
/// patterns) get dual kinds.
pub open spec fn spec_fan_kind(fan: FanKind, positive: bool) -> CtrKind {
    match (fan, positive) {
        (FanKind::Tup, false) => CtrKind::Ltp,
        (FanKind::Tup, true) => CtrKind::Tup,
        (FanKind::Dup, false) => CtrKind::Dup,
        (FanKind::Dup, true) => CtrKind::Sup,
    }
}

/// Links `up` with the main port of a node, in the direction given by the
/// polarity.
pub open spec fn link_polar(s: SState, node: SPlace, up: SPlace, positive: bool) -> SState {
    if positive {
        link(s, node, up)
    } else {
        link(s, up, node)
    }
}

// ---------------------------------------------------------------------------
// Patterns

/// Encodes a pattern into place `up` (patterns are the negative side).
pub open spec fn enc_pat(s: SState, p: Pattern, up: SPlace) -> SState
    decreases p, 0int,
{
    match p {
        Pattern::Var(None) => {
            let (s1, t) = new_leaf(s, SCell::Del);
            link(s1, up, t)
        },
        Pattern::Var(Some(name)) => link_var(s, false, name@, up),
        Pattern::Chn(name) => link_var(s, true, name@, up),
        Pattern::Fan(fan, _, els) => pat_list(s, spec_fan_kind(fan, false), up, els@, 0),
        _ => s,
    }
}

/// A chain of nodes for the elements `els[i..]` of a pattern fan: each
/// element but the last takes the first port of a node, the chain goes on
/// through the second port, and the last element takes the last port.
pub open spec fn pat_list(s: SState, kind: CtrKind, up: SPlace, els: Seq<Pattern>, i: int) -> SState
    decreases els, els.len() - i,
{
    if i < 0 || i >= els.len() {
        s
    } else if i == els.len() - 1 {
        enc_pat(s, els[i], up)
    } else {
        let (s1, n0, n1, n2) = new_ctr(s, kind);
        let s2 = link_polar(s1, n0, up, false);
        let s3 = enc_pat(s2, els[i], n1);
        pat_list(s3, kind, n2, els, i + 1)
    }
}

// ---------------------------------------------------------------------------
// Terms

/// Encodes `t` into place `up`, then every pending let (`lets`, innermost
/// last): each let opens a wire between its pattern and its value.
pub open spec fn enc_term(s: SState, lets: Seq<(Pattern, Term)>, t: Term, up: SPlace) -> SState
    decreases term_size(t) + lets_size(lets), 1int,
{
    match t {
        Term::Era => {
            let (s1, e) = new_leaf(s, SCell::Era);
            drain(link(s1, up, e), lets)
        },
        Term::Var { nam } => drain(link_var(s, false, nam@, up), lets),
        Term::Link { nam } => drain(link_var(s, true, nam@, up), lets),
        Term::Ref { nam } => {
            let (s1, r) = new_leaf(s, SCell::Ref(nam@));
            drain(link(s1, up, r), lets)
        },
        Term::Lam { pat, bod, .. } => {
            let (s1, n0, n1, n2) = new_ctr(s, CtrKind::Lam);
            let s2 = link(s1, up, n0);
            let s3 = enc_pat(s2, *pat, n1);
            enc_term(s3, lets, *bod, n2)
        },
        Term::App { fun, arg, .. } => {
            let (s1, n0, n1, n2) = new_ctr(s, CtrKind::App);
            let s2 = enc_term(s1, lets, *fun, n0);
            let s3 = enc_term(s2, Seq::empty(), *arg, n1);
            link(s3, up, n2)
        },
        Term::Let { pat, val, nxt } => {
            proof {
                assert(lets.push((*pat, *val)).drop_last() =~= lets);
            }
            enc_term(s, lets.push((*pat, *val)), *nxt, up)
        },
        Term::Fan { fan, els, .. } => term_list(
            s,
            lets,
            spec_fan_kind(fan, true),
            up,
            els@,
            0,
        ),
        _ => drain(s, lets),
    }
}

/// Encodes the pending lets, innermost first.
pub open spec fn drain(s: SState, lets: Seq<(Pattern, Term)>) -> SState
    decreases lets_size(lets), 0int,
{
    if lets.len() == 0 {
        s
    } else {
        let (pat, val) = lets.last();
        let (s1, w) = new_wire(s);
        let s2 = enc_pat(s1, pat, SPlace::Wire(w));
        enc_term(s2, lets.drop_last(), val, SPlace::Wire(w))
    }
}

/// A chain of nodes for the elements `els[i..]` of a term fan.
pub open spec fn term_list(
    s: SState,
    lets: Seq<(Pattern, Term)>,
    kind: CtrKind,
    up: SPlace,
    els: Seq<Term>,
    i: int,
) -> SState
    decreases terms_size(els, i) + lets_size(lets), 2int,
{
    if i < 0 || i >= els.len() {
        drain(s, lets)
    } else if i == els.len() - 1 {
        enc_term(s, lets, els[i], up)
    } else {
        let (s1, n0, n1, n2) = new_ctr(s, kind);
        let s2 = link_polar(s1, n0, up, true);
        let s3 = enc_term(s2, lets, els[i], n1);
        term_list(s3, Seq::empty(), kind, n2, els, i + 1)
    }
}

// ===========================================================================
// Counting over the arena
// ===========================================================================

/// What is counted over the cells: node cells, node cells of one kind,
/// ports holding a named wire end, or ports holding a given fill.
pub enum Weight {
    Node,
    Kind(CtrKind),
    Named,
    Fill(SFill),
    VarNamed(Seq<char>),
    SubNamed(Seq<char>),
}

/// What a fill counts for under a weight.
pub open spec fn fill_weight(f: SFill, k: Weight) -> nat {
    match k {
        Weight::Node => 0,
        Weight::Kind(_) => 0,
        Weight::Named => if f is Var || f is Sub {
            1
        } else {
            0
        },
        Weight::Fill(g) => if f == g {
            1
        } else {
            0
        },
        Weight::VarNamed(n) => match f {
            SFill::Var(i) => if spec_num_to_name(i) == n {
                1
            } else {
                0
            },
            _ => 0,
        },
        Weight::SubNamed(n) => match f {
            SFill::Sub(i) => if spec_num_to_name(i) == n {
                1
            } else {
                0
            },
            _ => 0,
        },
    }
}

/// What a cell counts for under a weight: node cells count once under
/// `Node`, and under `Kind` of their own kind, and by their two ports under
/// the other weights.
pub open spec fn cell_weight(c: SCell, k: Weight) -> nat {
    match c {
        SCell::Node(kind, a, b) => match k {
            Weight::Node => 1,
            Weight::Kind(k2) => if kind == k2 {
                1
            } else {
                0
            },
            _ => fill_weight(a, k) + fill_weight(b, k),
        },
        _ => 0,
    }
}

/// The weight of all cells.
pub open spec fn weight_sum(cells: Seq<SCell>, k: Weight) -> nat
    decreases cells.len(),
{
    if cells.len() == 0 {
        0
    } else {
        weight_sum(cells.drop_last(), k) + cell_weight(cells.last(), k)
    }
}

/// The count over all cells and the root.
pub open spec fn total(s: SState, k: Weight) -> nat {
    weight_sum(s.cells, k) + fill_weight(s.root, k)
}

/// Adding a cell adds its weight.
pub proof fn lemma_weight_push(cells: Seq<SCell>, x: SCell, k: Weight)
    ensures
        weight_sum(cells.push(x), k) == weight_sum(cells, k) + cell_weight(x, k),
{
    assert(cells.push(x).drop_last() =~= cells);
}

/// Replacing a cell replaces its weight.
pub proof fn lemma_weight_update(cells: Seq<SCell>, i: int, x: SCell, k: Weight)
    requires
        0 <= i < cells.len(),
    ensures
        weight_sum(cells.update(i, x), k) + cell_weight(cells[i], k) == weight_sum(cells, k)
            + cell_weight(x, k),
    decreases cells.len(),
{
    if i < cells.len() - 1 {
        assert(cells.update(i, x).drop_last() =~= cells.drop_last().update(i, x));
        lemma_weight_update(cells.drop_last(), i, x, k);
    } else {
        assert(cells.update(i, x).drop_last() =~= cells.drop_last());
    }
}

/// Cells of weight at most `m` weigh at most `m` times their number.
pub proof fn lemma_weight_bound(cells: Seq<SCell>, k: Weight, m: nat)
    requires
        forall|c: SCell| cell_weight(c, k) <= m,
    ensures
        weight_sum(cells, k) <= m * cells.len(),
    decreases cells.len(),
{
    if cells.len() > 0 {
        lemma_weight_bound(cells.drop_last(), k, m);
        assert(cell_weight(cells.last(), k) <= m);
        assert(m * cells.len() == m * (cells.len() - 1) + m) by (nonlinear_arith);
    }
}

// ===========================================================================
// The invariant of the encoder's state
// ===========================================================================

/// The kinds of node the arena holds.
pub open spec fn node_kind(k: CtrKind) -> bool {
    k == CtrKind::Lam || k == CtrKind::App || k == CtrKind::Dup || k == CtrKind::Sup
}

/// A place that refers to something of the arena.
pub open spec fn place_ok(s: SState, p: SPlace) -> bool {
    match p {
        SPlace::Tree(c) => c < s.cells.len(),
        SPlace::Hole(c, _) => c < s.cells.len() && s.cells[c as int] is Node,
        SPlace::Root => true,
        SPlace::Wire(w) => w < s.wires.len(),
    }
}

/// A fill that refers into the arena.
pub open spec fn fill_ok(s: SState, f: SFill) -> bool {
    match f {
        SFill::Cell(c) => c < s.cells.len(),
        _ => true,
    }
}

/// A cell of a supported kind whose ports refer into the arena.
pub open spec fn cell_ok(s: SState, c: SCell) -> bool {
    match c {
        SCell::Node(k, a, b) => node_kind(k) && fill_ok(s, a) && fill_ok(s, b),
        _ => true,
    }
}

/// What a port (or the root) currently holds.
pub open spec fn fill_at(s: SState, p: SPlace) -> SFill {
    match p {
        SPlace::Root => s.root,
        SPlace::Hole(c, second) => match s.cells[c as int] {
            SCell::Node(_, a, b) => if second {
                b
            } else {
                a
            },
            _ => SFill::Era,
        },
        _ => SFill::Era,
    }
}

/// The places held by the recorded variables.
pub open spec fn vars_places(vars: Seq<(bool, Seq<char>, SPlace)>) -> Multiset<SPlace> {
    vars.map_values(|e: (bool, Seq<char>, SPlace)| e.2).to_multiset()
}

/// How many times a place is held: by the encoder's callers (`live`), by a
/// recorded variable, or by a half-linked wire.
pub open spec fn held(s: SState, live: Multiset<SPlace>, p: SPlace) -> nat {
    live.count(p) + vars_places(s.vars).count(p) + s.wires.to_multiset().count(Some(p))
}

/// The invariant of the encoder's state, given the places its callers hold:
/// - every place refers into the arena, every port holds a valid fill;
/// - a port is held at most once, and while it is held it is empty: a port
///   is written once;
/// - `created` counts the node cells;
/// - each of the `name_idx` wire names is written into exactly one port as
///   `Var` and exactly one port as `Sub`.
pub open spec fn inv(s: SState, live: Multiset<SPlace>) -> bool {
    &&& forall|p: SPlace| #[trigger] live.count(p) > 0 ==> place_ok(s, p)
    &&& forall|i: int| 0 <= i < s.vars.len() ==> place_ok(s, #[trigger] s.vars[i].2)
    &&& forall|w: int|
        0 <= w < s.wires.len() ==> (#[trigger] s.wires[w] matches Some(p) ==> place_ok(s, p))
    &&& forall|p: SPlace|
        is_hole(p) ==> #[trigger] held(s, live, p) <= 1 && (held(s, live, p) == 1 ==> fill_at(
            s,
            p,
        ) is Era)
    &&& forall|c: int| 0 <= c < s.cells.len() ==> cell_ok(s, #[trigger] s.cells[c])
    &&& fill_ok(s, s.root)
    &&& forall|r: int|
        0 <= r < s.redexes.len() ==> #[trigger] s.redexes[r].0 < s.cells.len() && s.redexes[r].1
            < s.cells.len()
    &&& s.created == weight_sum(s.cells, Weight::Node)
    &&& total(s, Weight::Named) == 2 * s.name_idx
    &&& forall|i: nat|
        #[trigger] total(s, Weight::Fill(SFill::Var(i))) == if i < s.name_idx {
            1nat
        } else {
            0nat
        }
    &&& forall|i: nat|
        #[trigger] total(s, Weight::Fill(SFill::Sub(i))) == if i < s.name_idx {
            1nat
        } else {
            0nat
        }
}

/// The invariant holds of the state the encoding starts from, with the root
/// held by the caller.
pub proof fn lemma_initial_inv()
    ensures
        inv(initial_state(), Multiset::empty().insert(SPlace::Root)),
{
    broadcast use vstd::multiset::group_multiset_axioms;
    broadcast use vstd::seq_lib::group_to_multiset_ensures;

    let s = initial_state();
    let live = Multiset::<SPlace>::empty().insert(SPlace::Root);
    assert(s.vars.map_values(|e: (bool, Seq<char>, SPlace)| e.2) =~= Seq::empty());
    assert(vars_places(s.vars) =~= Multiset::empty());
    assert(s.wires.to_multiset() =~= Multiset::empty());
}

// ---------------------------------------------------------------------------
// How the elementary steps change the arena

/// Writing a port changes that port only, and the counts by the old and new
/// fill.
pub proof fn lemma_set_fill(s: SState, h: SPlace, f: SFill)
    requires
        place_ok(s, h),
        is_hole(h),
    ensures
        ({
            let s1 = set_fill(s, h, f);
            &&& s1.vars == s.vars
            &&& s1.wires == s.wires
            &&& s1.redexes == s.redexes
            &&& s1.name_idx == s.name_idx
            &&& s1.created == s.created
            &&& s1.cells.len() == s.cells.len()
            &&& forall|c: int|
                0 <= c < s.cells.len() ==> (#[trigger] s1.cells[c] is Node <==> s.cells[c] is Node)
            &&& forall|p: SPlace| #[trigger] place_ok(s1, p) == place_ok(s, p)
            &&& forall|p: SPlace|
                is_hole(p) && place_ok(s, p) ==> #[trigger] fill_at(s1, p) == if p == h {
                    f
                } else {
                    fill_at(s, p)
                }
            &&& forall|k: Weight| #[trigger]
                total(s1, k) + fill_weight(fill_at(s, h), k) == total(s, k) + fill_weight(f, k)
            &&& (forall|c: int| 0 <= c < s.cells.len() ==> cell_ok(s, #[trigger] s.cells[c]))
                && fill_ok(s, s.root) && fill_ok(s, f) ==> (forall|c: int|
                0 <= c < s1.cells.len() ==> cell_ok(s1, #[trigger] s1.cells[c])) && fill_ok(
                s1,
                s1.root,
            )
        }),
{
    let s1 = set_fill(s, h, f);
    if (forall|c: int| 0 <= c < s.cells.len() ==> cell_ok(s, #[trigger] s.cells[c])) && fill_ok(
        s,
        f,
    ) {
        assert forall|c: int| 0 <= c < s1.cells.len() implies cell_ok(s1, #[trigger] s1.cells[c]) by {
            assert(cell_ok(s, s.cells[c]));
        }
    }
    match h {
        SPlace::Hole(c, second) => {
            let ci = c as int;
            if let SCell::Node(kd, a, b) = s.cells[ci] {
                let x = if second {
                    SCell::Node(kd, a, f)
                } else {
                    SCell::Node(kd, f, b)
                };
                assert(s1.cells == s.cells.update(ci, x));
                assert forall|k: Weight| #[trigger]
                    total(s1, k) + fill_weight(fill_at(s, h), k) == total(s, k) + fill_weight(
                        f,
                        k,
                    ) by {
                    lemma_weight_update(s.cells, ci, x, k);
                }
            }
        },
        _ => {},
    }
}

/// A held place refers into the arena.
pub proof fn lemma_held_place_ok(s: SState, live: Multiset<SPlace>, p: SPlace)
    requires
        inv(s, live),
        held(s, live, p) > 0,
    ensures
        place_ok(s, p),
{
    broadcast use vstd::seq_lib::group_to_multiset_ensures;

    if live.count(p) > 0 {
    } else if vars_places(s.vars).count(p) > 0 {
        let vs = s.vars.map_values(|e: (bool, Seq<char>, SPlace)| e.2);
        assert(vs.contains(p));
        let i = choose|i: int| 0 <= i < vs.len() && vs[i] == p;
        assert(place_ok(s, s.vars[i].2));
    } else {
        assert(s.wires.contains(Some(p)));
        let w = choose|w: int| 0 <= w < s.wires.len() && s.wires[w] == Some(p);
        assert(s.wires[w] matches Some(q) ==> place_ok(s, q));
    }
}

/// A cell without ports.
pub open spec fn is_leaf(c: SCell) -> bool {
    !(c is Node)
}

/// Adding a leaf hands its place to the caller and keeps the invariant.
pub proof fn lemma_new_leaf_inv(s: SState, live: Multiset<SPlace>, cell: SCell)
    requires
        inv(s, live),
        is_leaf(cell),
    ensures
        ({
            let (s1, t) = new_leaf(s, cell);
            inv(s1, live.insert(t)) && s1.created == s.created && t == SPlace::Tree(
                s.cells.len(),
            )
        }),
{
    broadcast use vstd::multiset::group_multiset_axioms;

    let (s1, t) = new_leaf(s, cell);
    let live1 = live.insert(t);
    assert forall|k: Weight| #[trigger] total(s1, k) == total(s, k) by {
        lemma_weight_push(s.cells, cell, k);
    }
    assert forall|p: SPlace| #[trigger] place_ok(s, p) implies place_ok(s1, p) by {
        if let SPlace::Hole(c, _) = p {
            if c < s.cells.len() {
                assert(s1.cells[c as int] == s.cells[c as int]);
            }
        }
    }
    assert forall|p: SPlace| is_hole(p) implies #[trigger] held(s1, live1, p) <= 1 && (held(
        s1,
        live1,
        p,
    ) == 1 ==> fill_at(s1, p) is Era) by {
        assert(held(s1, live1, p) == held(s, live, p));
        if held(s, live, p) > 0 {
            lemma_held_place_ok(s, live, p);
            if let SPlace::Hole(c, _) = p {
                assert(s1.cells[c as int] == s.cells[c as int]);
            }
        }
    }
    assert forall|c: int| 0 <= c < s1.cells.len() implies cell_ok(s1, #[trigger] s1.cells[c]) by {
        if c < s.cells.len() {
            assert(cell_ok(s, s.cells[c]));
        }
    }
    assert forall|p: SPlace| #[trigger] live1.count(p) > 0 implies place_ok(s1, p) by {
        if p != t {
            assert(live.count(p) > 0);
        }
    }
    assert forall|i: int| 0 <= i < s1.vars.len() implies place_ok(s1, #[trigger] s1.vars[i].2) by {
        assert(place_ok(s, s.vars[i].2));
    }
    assert forall|w: int|
        0 <= w < s1.wires.len() implies (#[trigger] s1.wires[w] matches Some(p) ==> place_ok(s1, p)) by {
        assert(s.wires[w] matches Some(p) ==> place_ok(s, p));
    }
    assert(s1.created == weight_sum(s1.cells, Weight::Node)) by {
        assert(total(s1, Weight::Node) == total(s, Weight::Node));
    }
    assert forall|i: nat| #[trigger] total(s1, Weight::Fill(SFill::Var(i))) == if i < s1.name_idx {
            1nat
        } else {
            0nat
        } by {
        assert(total(s, Weight::Fill(SFill::Var(i))) == total(s1, Weight::Fill(SFill::Var(i))));
    }
    assert forall|i: nat| #[trigger] total(s1, Weight::Fill(SFill::Sub(i))) == if i < s1.name_idx {
            1nat
        } else {
            0nat
        } by {
        assert(total(s, Weight::Fill(SFill::Sub(i))) == total(s1, Weight::Fill(SFill::Sub(i))));
    }
    assert(total(s1, Weight::Named) == total(s, Weight::Named));
    assert(forall|r: int|
        0 <= r < s1.redexes.len() ==> #[trigger] s1.redexes[r].0 < s1.cells.len() && s1.redexes[r].1
            < s1.cells.len());

}

/// Adding a node hands its three places to the caller and keeps the
/// invariant.
pub proof fn lemma_new_ctr_inv(s: SState, live: Multiset<SPlace>, kind: CtrKind)
    requires
        inv(s, live),
        node_kind(kind),
    ensures
        ({
            let (s1, n0, n1, n2) = new_ctr(s, kind);
            &&& inv(s1, live.insert(n0).insert(n1).insert(n2))
            &&& s1.cells.len() == s.cells.len() + 1
        }),
{
    broadcast use vstd::multiset::group_multiset_axioms;

    let (s1, n0, n1, n2) = new_ctr(s, kind);
    let cell = SCell::Node(kind, SFill::Era, SFill::Era);
    let live1 = live.insert(n0).insert(n1).insert(n2);
    assert forall|k: Weight| #[trigger] total(s1, k) == total(s, k) + cell_weight(cell, k) by {
        lemma_weight_push(s.cells, cell, k);
    }
    assert forall|p: SPlace| #[trigger] place_ok(s, p) implies place_ok(s1, p) by {
        if let SPlace::Hole(c, _) = p {
            assert(s1.cells[c as int] == s.cells[c as int]);
        }
    }
    assert forall|p: SPlace| is_hole(p) implies #[trigger] held(s1, live1, p) <= 1 && (held(
        s1,
        live1,
        p,
    ) == 1 ==> fill_at(s1, p) is Era) by {
        if p == n1 || p == n2 {
            assert(!place_ok(s, p));
            if held(s, live, p) > 0 {
                lemma_held_place_ok(s, live, p);
            }
        } else {
            assert(held(s1, live1, p) == held(s, live, p));
            if held(s, live, p) > 0 {
                lemma_held_place_ok(s, live, p);
                if let SPlace::Hole(c, _) = p {
                    assert(s1.cells[c as int] == s.cells[c as int]);
                }
            }
        }
    }
    assert forall|c: int| 0 <= c < s1.cells.len() implies cell_ok(s1, #[trigger] s1.cells[c]) by {
        if c < s.cells.len() {
            assert(cell_ok(s, s.cells[c]));
        }
    }
    assert forall|p: SPlace| #[trigger] live1.count(p) > 0 implies place_ok(s1, p) by {
        if p != n0 && p != n1 && p != n2 {
            assert(live.count(p) > 0);
        }
    }
    assert forall|i: int| 0 <= i < s1.vars.len() implies place_ok(s1, #[trigger] s1.vars[i].2) by {
        assert(place_ok(s, s.vars[i].2));
    }
    assert forall|w: int|
        0 <= w < s1.wires.len() implies (#[trigger] s1.wires[w] matches Some(p) ==> place_ok(
        s1,
        p,
    )) by {
        assert(s.wires[w] matches Some(p) ==> place_ok(s, p));
    }
    assert forall|i: nat| #[trigger]
        total(s1, Weight::Fill(SFill::Var(i))) == if i < s1.name_idx {
            1nat
        } else {
            0nat
        } by {
        assert(total(s, Weight::Fill(SFill::Var(i))) == total(s1, Weight::Fill(SFill::Var(i))));
    }
    assert forall|i: nat| #[trigger]
        total(s1, Weight::Fill(SFill::Sub(i))) == if i < s1.name_idx {
            1nat
        } else {
            0nat
        } by {
        assert(total(s, Weight::Fill(SFill::Sub(i))) == total(s1, Weight::Fill(SFill::Sub(i))));
    }
    assert(total(s1, Weight::Named) == total(s, Weight::Named));
    assert(total(s1, Weight::Node) == total(s, Weight::Node) + 1);
}

/// Opening a wire hands both of its ends to the caller and keeps the
/// invariant.
pub proof fn lemma_new_wire_inv(s: SState, live: Multiset<SPlace>)
    requires
        inv(s, live),
    ensures
        ({
            let (s1, w) = new_wire(s);
            inv(s1, live.insert(SPlace::Wire(w)).insert(SPlace::Wire(w)))
        }),
{
    broadcast use vstd::multiset::group_multiset_axioms;
    broadcast use vstd::seq_lib::group_to_multiset_ensures;

    let (s1, w) = new_wire(s);
    let live1 = live.insert(SPlace::Wire(w)).insert(SPlace::Wire(w));
    assert forall|p: SPlace| #[trigger] place_ok(s, p) implies place_ok(s1, p) by {}
    assert forall|p: SPlace| is_hole(p) implies #[trigger] held(s1, live1, p) <= 1 && (held(
        s1,
        live1,
        p,
    ) == 1 ==> fill_at(s1, p) is Era) by {
        assert(s1.wires.to_multiset().count(Some(p)) == s.wires.to_multiset().count(Some(p)));
        assert(held(s1, live1, p) == held(s, live, p));
    }
    assert forall|p: SPlace| #[trigger] live1.count(p) > 0 implies place_ok(s1, p) by {
        if p != SPlace::Wire(w) {
            assert(live.count(p) > 0);
        }
    }
    assert forall|i: int| 0 <= i < s1.vars.len() implies place_ok(s1, #[trigger] s1.vars[i].2) by {
        assert(place_ok(s, s.vars[i].2));
    }
    assert forall|x: int|
        0 <= x < s1.wires.len() implies (#[trigger] s1.wires[x] matches Some(p) ==> place_ok(
        s1,
        p,
    )) by {
        if x < s.wires.len() {
            assert(s.wires[x] matches Some(p) ==> place_ok(s, p));
        }
    }
    assert forall|c: int| 0 <= c < s1.cells.len() implies cell_ok(s1, #[trigger] s1.cells[c]) by {
        assert(cell_ok(s, s.cells[c]));
    }
    assert forall|k: Weight| #[trigger] total(s1, k) == total(s, k) by {}
    assert forall|i: nat| #[trigger]
        total(s1, Weight::Fill(SFill::Var(i))) == if i < s1.name_idx {
            1nat
        } else {
            0nat
        } by {
        assert(total(s, Weight::Fill(SFill::Var(i))) == total(s1, Weight::Fill(SFill::Var(i))));
    }
    assert forall|i: nat| #[trigger]
        total(s1, Weight::Fill(SFill::Sub(i))) == if i < s1.name_idx {
            1nat
        } else {
            0nat
        } by {
        assert(total(s, Weight::Fill(SFill::Sub(i))) == total(s1, Weight::Fill(SFill::Sub(i))));
    }
    assert(fill_ok(s1, s1.root));
    assert(forall|r: int|
        0 <= r < s1.redexes.len() ==> #[trigger] s1.redexes[r].0 < s1.cells.len() && s1.redexes[r].1
            < s1.cells.len());

}

/// The parts of the invariant that a change of ports, root, redexes or
/// names leaves alone, when vars, wires and cell shapes stay as they were.
pub proof fn lemma_frame_bounds(s: SState, live: Multiset<SPlace>, s1: SState, live1: Multiset<SPlace>)
    requires
        inv(s, live),
        s1.vars == s.vars,
        s1.wires == s.wires,
        s1.cells.len() == s.cells.len(),
        forall|c: int|
            0 <= c < s.cells.len() ==> (#[trigger] s1.cells[c] is Node <==> s.cells[c] is Node),
        forall|p: SPlace| #[trigger] live1.count(p) <= live.count(p),
    ensures
        forall|p: SPlace| #[trigger] place_ok(s1, p) == place_ok(s, p),
        forall|p: SPlace| #[trigger] live1.count(p) > 0 ==> place_ok(s1, p),
        forall|i: int| 0 <= i < s1.vars.len() ==> place_ok(s1, #[trigger] s1.vars[i].2),
        forall|w: int|
            0 <= w < s1.wires.len() ==> (#[trigger] s1.wires[w] matches Some(p) ==> place_ok(
                s1,
                p,
            )),
{
    assert forall|p: SPlace| #[trigger] place_ok(s1, p) == place_ok(s, p) by {
        if let SPlace::Hole(c, _) = p {
            if c < s.cells.len() {
                assert(s1.cells[c as int] is Node <==> s.cells[c as int] is Node);
            }
        }
    }
    assert forall|p: SPlace| #[trigger] live1.count(p) > 0 implies place_ok(s1, p) by {
        assert(live.count(p) > 0);
    }
    assert forall|i: int| 0 <= i < s1.vars.len() implies place_ok(s1, #[trigger] s1.vars[i].2) by {
        assert(place_ok(s, s.vars[i].2));
    }
    assert forall|w: int|
        0 <= w < s1.wires.len() implies (#[trigger] s1.wires[w] matches Some(p) ==> place_ok(
        s1,
        p,
    )) by {
        assert(s.wires[w] matches Some(p) ==> place_ok(s, p));
    }
}

/// Writing a held tree into a held port.
pub proof fn lemma_fill_cell_inv(s: SState, live: Multiset<SPlace>, t: nat, h: SPlace)
    requires
        inv(s, live),
        is_hole(h),
        live.count(SPlace::Tree(t)) > 0,
        live.remove(SPlace::Tree(t)).count(h) > 0,
    ensures
        inv(set_fill(s, h, SFill::Cell(t)), live.remove(SPlace::Tree(t)).remove(h)),
{
    broadcast use vstd::multiset::group_multiset_axioms;

    let f = SFill::Cell(t);
    let s1 = set_fill(s, h, f);
    let live1 = live.remove(SPlace::Tree(t)).remove(h);
    assert(place_ok(s, SPlace::Tree(t)));
    assert(place_ok(s, h));
    lemma_set_fill(s, h, f);
    assert(held(s, live, h) == 1);
    assert(fill_at(s, h) is Era);
    lemma_frame_bounds(s, live, s1, live1);
    assert forall|p: SPlace| is_hole(p) implies #[trigger] held(s1, live1, p) <= 1 && (held(
        s1,
        live1,
        p,
    ) == 1 ==> fill_at(s1, p) is Era) by {
        if p != h {
            assert(held(s1, live1, p) == held(s, live, p));
            if held(s, live, p) > 0 {
                lemma_held_place_ok(s, live, p);
            }
        } else {
            assert(held(s1, live1, p) == 0);
        }
    }
    assert forall|i: nat| #[trigger]
        total(s1, Weight::Fill(SFill::Var(i))) == if i < s1.name_idx {
            1nat
        } else {
            0nat
        } by {
        assert(total(s1, Weight::Fill(SFill::Var(i))) + fill_weight(
            fill_at(s, h),
            Weight::Fill(SFill::Var(i)),
        ) == total(s, Weight::Fill(SFill::Var(i))) + fill_weight(f, Weight::Fill(SFill::Var(i))));
    }
    assert forall|i: nat| #[trigger]
        total(s1, Weight::Fill(SFill::Sub(i))) == if i < s1.name_idx {
            1nat
        } else {
            0nat
        } by {
        assert(total(s1, Weight::Fill(SFill::Sub(i))) + fill_weight(
            fill_at(s, h),
            Weight::Fill(SFill::Sub(i)),
        ) == total(s, Weight::Fill(SFill::Sub(i))) + fill_weight(f, Weight::Fill(SFill::Sub(i))));
    }
    assert(total(s1, Weight::Named) + fill_weight(fill_at(s, h), Weight::Named) == total(
        s,
        Weight::Named,
    ) + fill_weight(f, Weight::Named));
    assert(total(s1, Weight::Node) + fill_weight(fill_at(s, h), Weight::Node) == total(
        s,
        Weight::Node,
    ) + fill_weight(f, Weight::Node));
}

/// Joining two held ports by a fresh named wire.
pub proof fn lemma_fill_names_inv(s: SState, live: Multiset<SPlace>, pos: SPlace, neg: SPlace)
    requires
        inv(s, live),
        is_hole(pos),
        is_hole(neg),
        live.count(pos) > 0,
        live.remove(pos).count(neg) > 0,
    ensures
        ({
            let s1 = set_fill(s, pos, SFill::Var(s.name_idx));
            let s2 = set_fill(s1, neg, SFill::Sub(s.name_idx));
            inv(SState { name_idx: s.name_idx + 1, ..s2 }, live.remove(pos).remove(neg))
        }),
{
    broadcast use vstd::multiset::group_multiset_axioms;

    let k = s.name_idx;
    let fv = SFill::Var(k);
    let fs = SFill::Sub(k);
    let s1 = set_fill(s, pos, fv);
    let s2 = set_fill(s1, neg, fs);
    let s3 = SState { name_idx: k + 1, ..s2 };
    let live1 = live.remove(pos).remove(neg);
    assert(pos != neg) by {
        if pos == neg {
            assert(live.count(pos) >= 2);
            assert(held(s, live, pos) >= 2);
        }
    }
    assert(place_ok(s, pos));
    assert(place_ok(s, neg));
    assert(held(s, live, pos) == 1);
    assert(held(s, live, neg) == 1);
    lemma_set_fill(s, pos, fv);
    lemma_set_fill(s1, neg, fs);
    assert(fill_at(s, pos) is Era);
    assert(fill_at(s1, neg) is Era);
    lemma_frame_bounds(s, live, s3, live1);
    assert forall|p: SPlace| is_hole(p) implies #[trigger] held(s3, live1, p) <= 1 && (held(
        s3,
        live1,
        p,
    ) == 1 ==> fill_at(s3, p) is Era) by {
        if p != pos && p != neg {
            assert(held(s3, live1, p) == held(s, live, p));
            if held(s, live, p) > 0 {
                lemma_held_place_ok(s, live, p);
                assert(fill_at(s1, p) == fill_at(s, p));
                assert(fill_at(s2, p) == fill_at(s1, p));
            }
        } else {
            assert(held(s3, live1, p) == 0);
        }
    }
    assert forall|i: nat| #[trigger]
        total(s3, Weight::Fill(SFill::Var(i))) == if i < s3.name_idx {
            1nat
        } else {
            0nat
        } by {
        let w = Weight::Fill(SFill::Var(i));
        assert(total(s1, w) + fill_weight(fill_at(s, pos), w) == total(s, w) + fill_weight(fv, w));
        assert(total(s2, w) + fill_weight(fill_at(s1, neg), w) == total(s1, w) + fill_weight(
            fs,
            w,
        ));
        assert(total(s, w) == if i < k {
            1nat
        } else {
            0nat
        });
    }
    assert forall|i: nat| #[trigger]
        total(s3, Weight::Fill(SFill::Sub(i))) == if i < s3.name_idx {
            1nat
        } else {
            0nat
        } by {
        let w = Weight::Fill(SFill::Sub(i));
        assert(total(s1, w) + fill_weight(fill_at(s, pos), w) == total(s, w) + fill_weight(fv, w));
        assert(total(s2, w) + fill_weight(fill_at(s1, neg), w) == total(s1, w) + fill_weight(
            fs,
            w,
        ));
        assert(total(s, w) == if i < k {
            1nat
        } else {
            0nat
        });
    }
    let w = Weight::Named;
    assert(total(s1, w) + fill_weight(fill_at(s, pos), w) == total(s, w) + fill_weight(fv, w));
    assert(total(s2, w) + fill_weight(fill_at(s1, neg), w) == total(s1, w) + fill_weight(fs, w));
    let w = Weight::Node;
    assert(total(s1, w) + fill_weight(fill_at(s, pos), w) == total(s, w) + fill_weight(fv, w));
    assert(total(s2, w) + fill_weight(fill_at(s1, neg), w) == total(s1, w) + fill_weight(fs, w));
}

/// Moving a place between a wire slot and the callers' hand, or recording a
/// redex, keeps the invariant.
pub proof fn lemma_wire_slot_inv(
    s: SState,
    live: Multiset<SPlace>,
    w: nat,
    x: Option<SPlace>,
    live1: Multiset<SPlace>,
)
    requires
        inv(s, live),
        w < s.wires.len(),
        x matches Some(q) ==> place_ok(s, q),
        forall|p: SPlace| #[trigger] live1.count(p) > 0 ==> place_ok(s, p),
        forall|p: SPlace|
            is_hole(p) ==> #[trigger] live1.count(p) + (if x == Some(p) {
                1nat
            } else {
                0nat
            }) == live.count(p) + (if s.wires[w as int] == Some(p) {
                1nat
            } else {
                0nat
            }),
    ensures
        inv(SState { wires: s.wires.update(w as int, x), ..s }, live1),
{
    broadcast use vstd::multiset::group_multiset_axioms;
    broadcast use vstd::seq_lib::group_to_multiset_ensures;

    let s1 = SState { wires: s.wires.update(w as int, x), ..s };
    assert forall|p: SPlace| #[trigger] place_ok(s1, p) == place_ok(s, p) by {}
    assert forall|p: SPlace| is_hole(p) implies #[trigger] held(s1, live1, p) <= 1 && (held(
        s1,
        live1,
        p,
    ) == 1 ==> fill_at(s1, p) is Era) by {
        assert(s1.wires.to_multiset() == s.wires.to_multiset().insert(x).remove(
            s.wires[w as int],
        ));
        assert(held(s1, live1, p) == held(s, live, p));
    }
    assert forall|i: int| 0 <= i < s1.vars.len() implies place_ok(s1, #[trigger] s1.vars[i].2) by {
        assert(place_ok(s, s.vars[i].2));
    }
    assert forall|v: int|
        0 <= v < s1.wires.len() implies (#[trigger] s1.wires[v] matches Some(p) ==> place_ok(
        s1,
        p,
    )) by {
        if v != w {
            assert(s.wires[v] matches Some(p) ==> place_ok(s, p));
        }
    }
    assert forall|c: int| 0 <= c < s1.cells.len() implies cell_ok(s1, #[trigger] s1.cells[c]) by {
        assert(cell_ok(s, s.cells[c]));
    }
    assert forall|k: Weight| #[trigger] total(s1, k) == total(s, k) by {}
    assert forall|i: nat| #[trigger]
        total(s1, Weight::Fill(SFill::Var(i))) == if i < s1.name_idx {
            1nat
        } else {
            0nat
        } by {
        assert(total(s, Weight::Fill(SFill::Var(i))) == total(s1, Weight::Fill(SFill::Var(i))));
    }
    assert forall|i: nat| #[trigger]
        total(s1, Weight::Fill(SFill::Sub(i))) == if i < s1.name_idx {
            1nat
        } else {
            0nat
        } by {
        assert(total(s, Weight::Fill(SFill::Sub(i))) == total(s1, Weight::Fill(SFill::Sub(i))));
    }
}

/// Linking two held places consumes both and keeps the invariant.
pub proof fn lemma_link_inv(s: SState, live: Multiset<SPlace>, pos: SPlace, neg: SPlace)
    requires
        inv(s, live),
        live.count(pos) > 0,
        live.remove(pos).count(neg) > 0,
    ensures
        inv(link(s, pos, neg), live.remove(pos).remove(neg)),
    decreases count_some(s.wires),
{
    broadcast use vstd::multiset::group_multiset_axioms;

    assert(place_ok(s, pos));
    assert(place_ok(s, neg));
    match (pos, neg) {
        (SPlace::Wire(w), _) => {
            match s.wires[w as int] {
                Some(p) => {
                    lemma_count_some_take(s.wires, w as int);
                    assert(s.wires[w as int] matches Some(q) ==> place_ok(s, q));
                    let live1 = live.remove(pos).insert(p);
                    lemma_wire_slot_inv(s, live, w, None, live1);
                    let s1 = SState { wires: s.wires.update(w as int, None), ..s };
                    assert(live1.remove(p) =~= live.remove(pos));
                    lemma_link_inv(s1, live1, p, neg);
                    assert(live1.remove(p).remove(neg) =~= live.remove(pos).remove(neg));
                },
                None => {
                    let live1 = live.remove(pos).remove(neg);
                    lemma_wire_slot_inv(s, live, w, Some(neg), live1);
                },
            }
        },
        (_, SPlace::Wire(w)) => {
            match s.wires[w as int] {
                Some(n) => {
                    lemma_count_some_take(s.wires, w as int);
                    assert(s.wires[w as int] matches Some(q) ==> place_ok(s, q));
                    let live1 = live.remove(neg).insert(n);
                    lemma_wire_slot_inv(s, live, w, None, live1);
                    let s1 = SState { wires: s.wires.update(w as int, None), ..s };
                    assert(live1.remove(pos) =~= live.remove(pos).remove(neg).insert(n));
                    lemma_link_inv(s1, live1, pos, n);
                    assert(live1.remove(pos).remove(n) =~= live.remove(pos).remove(neg));
                },
                None => {
                    let live1 = live.remove(pos).remove(neg);
                    lemma_wire_slot_inv(s, live, w, Some(pos), live1);
                },
            }
        },
        (SPlace::Tree(p), SPlace::Tree(n)) => {
            let s1 = SState { redexes: s.redexes.push((n, p)), ..s };
            let live1 = live.remove(pos).remove(neg);
            lemma_frame_bounds(s, live, s1, live1);
            assert forall|q: SPlace| is_hole(q) implies #[trigger] held(s1, live1, q) <= 1 && (held(
                s1,
                live1,
                q,
            ) == 1 ==> fill_at(s1, q) is Era) by {
                assert(held(s1, live1, q) == held(s, live, q));
            }
            assert forall|c: int| 0 <= c < s1.cells.len() implies cell_ok(
                s1,
                #[trigger] s1.cells[c],
            ) by {
                assert(cell_ok(s, s.cells[c]));
            }
            assert forall|k: Weight| #[trigger] total(s1, k) == total(s, k) by {}
            assert forall|i: nat| #[trigger]
                total(s1, Weight::Fill(SFill::Var(i))) == if i < s1.name_idx {
                    1nat
                } else {
                    0nat
                } by {
                assert(total(s, Weight::Fill(SFill::Var(i))) == total(
                    s1,
                    Weight::Fill(SFill::Var(i)),
                ));
            }
            assert forall|i: nat| #[trigger]
                total(s1, Weight::Fill(SFill::Sub(i))) == if i < s1.name_idx {
                    1nat
                } else {
                    0nat
                } by {
                assert(total(s, Weight::Fill(SFill::Sub(i))) == total(
                    s1,
                    Weight::Fill(SFill::Sub(i)),
                ));
            }
            assert forall|r: int| 0 <= r < s1.redexes.len() implies #[trigger] s1.redexes[r].0
                < s1.cells.len() && s1.redexes[r].1 < s1.cells.len() by {
                if r < s.redexes.len() {
                    assert(s.redexes[r] == s1.redexes[r]);
                }
            }
        },
        (SPlace::Tree(t), _) => {
            lemma_fill_cell_inv(s, live, t, neg);
        },
        (_, SPlace::Tree(t)) => {
            assert(live.remove(pos).remove(neg) =~= live.remove(neg).remove(pos));
            lemma_fill_cell_inv(s, live, t, pos);
        },
        (_, _) => {
            lemma_fill_names_inv(s, live, pos, neg);
        },
    }
}

/// Moving a place between the recorded variables and the callers' hand.
pub proof fn lemma_vars_move_inv(
    s: SState,
    live: Multiset<SPlace>,
    vars1: Seq<(bool, Seq<char>, SPlace)>,
    live1: Multiset<SPlace>,
)
    requires
        inv(s, live),
        forall|i: int| 0 <= i < vars1.len() ==> place_ok(s, #[trigger] vars1[i].2),
        forall|p: SPlace| #[trigger] live1.count(p) > 0 ==> place_ok(s, p),
        forall|p: SPlace|
            is_hole(p) ==> #[trigger] live1.count(p) + vars_places(vars1).count(p) == live.count(p)
                + vars_places(s.vars).count(p),
    ensures
        inv(SState { vars: vars1, ..s }, live1),
{
    let s1 = SState { vars: vars1, ..s };
    assert forall|p: SPlace| #[trigger] place_ok(s1, p) == place_ok(s, p) by {}
    assert forall|p: SPlace| is_hole(p) implies #[trigger] held(s1, live1, p) <= 1 && (held(
        s1,
        live1,
        p,
    ) == 1 ==> fill_at(s1, p) is Era) by {
        assert(held(s1, live1, p) == held(s, live, p));
    }
    assert forall|v: int|
        0 <= v < s1.wires.len() implies (#[trigger] s1.wires[v] matches Some(p) ==> place_ok(
        s1,
        p,
    )) by {
        assert(s.wires[v] matches Some(p) ==> place_ok(s, p));
    }
    assert forall|c: int| 0 <= c < s1.cells.len() implies cell_ok(s1, #[trigger] s1.cells[c]) by {
        assert(cell_ok(s, s.cells[c]));
    }
    assert forall|k: Weight| #[trigger] total(s1, k) == total(s, k) by {}
    assert forall|i: nat| #[trigger]
        total(s1, Weight::Fill(SFill::Var(i))) == if i < s1.name_idx {
            1nat
        } else {
            0nat
        } by {
        assert(total(s, Weight::Fill(SFill::Var(i))) == total(s1, Weight::Fill(SFill::Var(i))));
    }
    assert forall|i: nat| #[trigger]
        total(s1, Weight::Fill(SFill::Sub(i))) == if i < s1.name_idx {
            1nat
        } else {
            0nat
        } by {
        assert(total(s, Weight::Fill(SFill::Sub(i))) == total(s1, Weight::Fill(SFill::Sub(i))));
    }
}

/// A found variable is at a matching entry.
pub proof fn lemma_find_var_range(
    vars: Seq<(bool, Seq<char>, SPlace)>,
    global: bool,
    name: Seq<char>,
    i: int,
)
    requires
        0 <= i,
    ensures
        find_var(vars, global, name, i) matches Some(j) ==> i <= j < vars.len() && vars[j].0
            == global && vars[j].1 == name,
    decreases vars.len() - i,
{
    if i < vars.len() && !(vars[i].0 == global && vars[i].1 == name) {
        lemma_find_var_range(vars, global, name, i + 1);
    }
}

/// Taking the place of a recorded variable into the callers' hand.
pub proof fn lemma_var_take_inv(s: SState, live: Multiset<SPlace>, i: int)
    requires
        inv(s, live),
        0 <= i < s.vars.len(),
    ensures
        inv(SState { vars: s.vars.remove(i), ..s }, live.insert(s.vars[i].2)),
{
    broadcast use vstd::multiset::group_multiset_axioms;
    broadcast use vstd::seq_lib::group_to_multiset_ensures;

    let f = |e: (bool, Seq<char>, SPlace)| e.2;
    let other = s.vars[i].2;
    let vars1 = s.vars.remove(i);
    let live1 = live.insert(other);
    assert(vars1.map_values(f) =~= s.vars.map_values(f).remove(i));
    assert(vars_places(vars1) == vars_places(s.vars).remove(other));
    assert(place_ok(s, other));
    assert forall|j: int| 0 <= j < vars1.len() implies place_ok(s, #[trigger] vars1[j].2) by {
        if j < i {
            assert(vars1[j] == s.vars[j]);
        } else {
            assert(vars1[j] == s.vars[j + 1]);
        }
    }
    assert(vars_places(s.vars).count(other) > 0) by {
        assert(s.vars.map_values(f)[i] == other);
    }
    lemma_vars_move_inv(s, live, vars1, live1);
}

/// Recording a variable occurrence with its place.
pub proof fn lemma_var_put_inv(
    s: SState,
    live: Multiset<SPlace>,
    global: bool,
    name: Seq<char>,
    place: SPlace,
)
    requires
        inv(s, live),
        live.count(place) > 0,
    ensures
        inv(
            SState { vars: s.vars.push((global, name, place)), ..s },
            live.remove(place),
        ),
{
    broadcast use vstd::multiset::group_multiset_axioms;
    broadcast use vstd::seq_lib::group_to_multiset_ensures;

    let f = |e: (bool, Seq<char>, SPlace)| e.2;
    let vars1 = s.vars.push((global, name, place));
    let live1 = live.remove(place);
    assert(vars1.map_values(f) =~= s.vars.map_values(f).push(place));
    assert forall|j: int| 0 <= j < vars1.len() implies place_ok(s, #[trigger] vars1[j].2) by {
        if j < s.vars.len() {
            assert(vars1[j] == s.vars[j]);
        }
    }
    lemma_vars_move_inv(s, live, vars1, live1);
}

/// Recording or linking a variable occurrence consumes its place.
pub proof fn lemma_link_var_inv(
    s: SState,
    live: Multiset<SPlace>,
    global: bool,
    name: Seq<char>,
    place: SPlace,
)
    requires
        inv(s, live),
        live.count(place) > 0,
    ensures
        inv(link_var(s, global, name, place), live.remove(place)),
{
    broadcast use vstd::multiset::group_multiset_axioms;
    broadcast use vstd::seq_lib::group_to_multiset_ensures;

    lemma_find_var_range(s.vars, global, name, 0);
    match find_var(s.vars, global, name, 0) {
        Some(i) => {
            let other = s.vars[i].2;
            lemma_var_take_inv(s, live, i);
            let s1 = SState { vars: s.vars.remove(i), ..s };
            let live1 = live.insert(other);
            assert(live1.remove(place).count(other) > 0);
            lemma_link_inv(s1, live1, place, other);
            assert(live1.remove(place).remove(other) =~= live.remove(place));
        },
        None => {
            lemma_var_put_inv(s, live, global, name, place);
        },
    }
}

// ===========================================================================
// Reading the net out of the arena
// ===========================================================================

/// The tree a port holds. Each cell is read at most once: `vis` marks the
/// cells already read, and a cell met again (which a well-formed arena never
/// shows) reads as an eraser, as does running out of `fuel` (the depth bound).
pub open spec fn read_fill(s: SState, vis: Seq<bool>, f: SFill, fuel: nat) -> (TreeV, Seq<bool>)
    decreases fuel, 1int,
{
    match f {
        SFill::Era => (TreeV::Era, vis),
        SFill::Var(i) => (TreeV::Var(spec_num_to_name(i)), vis),
        SFill::Sub(i) => (TreeV::Sub(spec_num_to_name(i)), vis),
        SFill::Cell(c) => read_cell(s, vis, c, fuel),
    }
}

/// The tree of a cell (see `read_fill`).
pub open spec fn read_cell(s: SState, vis: Seq<bool>, c: nat, fuel: nat) -> (TreeV, Seq<bool>)
    decreases fuel, 0int,
{
    if fuel == 0 || c >= s.cells.len() || c >= vis.len() || vis[c as int] {
        (TreeV::Era, vis)
    } else {
        let v1 = vis.update(c as int, true);
        match s.cells[c as int] {
            SCell::Era => (TreeV::Era, v1),
            SCell::Del => (TreeV::Del, v1),
            SCell::Ref(n) => (TreeV::Ref(n), v1),
            SCell::Node(k, a, b) => {
                let (ta, v2) = read_fill(s, v1, a, (fuel - 1) as nat);
                let (tb, v3) = read_fill(s, v2, b, (fuel - 1) as nat);
                (node_of(k, ta, tb), v3)
            },
        }
    }
}

/// The redexes `redexes[i..]`, each as a pair of trees (negative side
/// first).
pub open spec fn read_redexes(s: SState, vis: Seq<bool>, i: int, fuel: nat) -> (
    Seq<(bool, TreeV, TreeV)>,
    Seq<bool>,
)
    decreases s.redexes.len() - i,
{
    if i < 0 || i >= s.redexes.len() {
        (Seq::empty(), vis)
    } else {
        let (tn, v1) = read_cell(s, vis, s.redexes[i].0, fuel);
        let (tp, v2) = read_cell(s, v1, s.redexes[i].1, fuel);
        let (rest, v3) = read_redexes(s, v2, i + 1, fuel);
        (seq![(false, tn, tp)] + rest, v3)
    }
}

/// No cell visited yet.
pub open spec fn no_visits(n: nat) -> Seq<bool> {
    Seq::new(n, |i: int| false)
}

/// The net of an arena: the root's tree and the redexes' trees, read in that
/// order. A path in the arena visits distinct cells, so the number of cells
/// bounds the depth.
pub open spec fn read_net(s: SState) -> (NetV, Seq<bool>) {
    let fuel = s.cells.len();
    let (root, v1) = read_fill(s, no_visits(s.cells.len()), s.root, fuel);
    let (rbag, v2) = read_redexes(s, v1, 0, fuel);
    (NetV { root, rbag }, v2)
}

/// The message of a refused encoding.
pub open spec fn vicious_msg() -> Seq<char> {
    "Found term that compiles into an inet with a vicious cycle"@
}

/// The arena after encoding a whole term into the root.
pub open spec fn encoded(t: Term) -> SState {
    enc_term(initial_state(), Seq::empty(), t, SPlace::Root)
}

/// The result of compiling a term: its net, unless fewer nodes than were
/// created can be found in it (a vicious cycle placed a node inside its own
/// subtree).
pub open spec fn spec_term_to_hvm(t: Term) -> Result<NetV, Seq<char>> {
    let s = encoded(t);
    let net = read_net(s).0;
    if net_nodes(net) == s.created {
        Ok(net)
    } else {
        Err(vicious_msg())
    }
}

// ---------------------------------------------------------------------------
// What reading visits

/// The weight of the cells that `v1` marks and `v0` does not.
pub open spec fn vis_sum(cells: Seq<SCell>, v0: Seq<bool>, v1: Seq<bool>, k: Weight) -> nat
    decreases cells.len(),
{
    if cells.len() == 0 || v0.len() != cells.len() || v1.len() != cells.len() {
        0
    } else {
        vis_sum(cells.drop_last(), v0.drop_last(), v1.drop_last(), k) + if !v0.last()
            && v1.last() {
            cell_weight(cells.last(), k)
        } else {
            0
        }
    }
}

/// `v1` marks every cell `v0` marks.
pub open spec fn vis_le(v0: Seq<bool>, v1: Seq<bool>) -> bool {
    &&& v0.len() == v1.len()
    &&& forall|i: int| 0 <= i < v0.len() && #[trigger] v0[i] ==> v1[i]
}

/// Nothing newly visited weighs nothing.
pub proof fn lemma_vis_sum_same(cells: Seq<SCell>, v: Seq<bool>, k: Weight)
    ensures
        vis_sum(cells, v, v, k) == 0,
    decreases cells.len(),
{
    if cells.len() > 0 && v.len() == cells.len() {
        lemma_vis_sum_same(cells.drop_last(), v.drop_last(), k);
    }
}

/// Visits add up.
pub proof fn lemma_vis_sum_trans(
    cells: Seq<SCell>,
    v0: Seq<bool>,
    v1: Seq<bool>,
    v2: Seq<bool>,
    k: Weight,
)
    requires
        v0.len() == cells.len(),
        vis_le(v0, v1),
        vis_le(v1, v2),
    ensures
        vis_sum(cells, v0, v2, k) == vis_sum(cells, v0, v1, k) + vis_sum(cells, v1, v2, k),
    decreases cells.len(),
{
    if cells.len() > 0 {
        let n = cells.len() - 1;
        assert(v0.last() ==> v1.last()) by {
            assert(v0[n] ==> v1[n]);
        }
        assert(v1.last() ==> v2.last()) by {
            assert(v1[n] ==> v2[n]);
        }
        assert forall|i: int| 0 <= i < v0.drop_last().len() && #[trigger] v0.drop_last()[i]
            implies v1.drop_last()[i] by {
            assert(v0[i] ==> v1[i]);
        }
        assert forall|i: int| 0 <= i < v1.drop_last().len() && #[trigger] v1.drop_last()[i]
            implies v2.drop_last()[i] by {
            assert(v1[i] ==> v2[i]);
        }
        lemma_vis_sum_trans(cells.drop_last(), v0.drop_last(), v1.drop_last(), v2.drop_last(), k);
    }
}

/// Visiting one more cell adds its weight.
pub proof fn lemma_vis_sum_one(cells: Seq<SCell>, v: Seq<bool>, c: int, k: Weight)
    requires
        v.len() == cells.len(),
        0 <= c < cells.len(),
        !v[c],
    ensures
        vis_sum(cells, v, v.update(c, true), k) == cell_weight(cells[c], k),
    decreases cells.len(),
{
    let v1 = v.update(c, true);
    if c < cells.len() - 1 {
        assert(v1.drop_last() =~= v.drop_last().update(c, true));
        lemma_vis_sum_one(cells.drop_last(), v.drop_last(), c, k);
    } else {
        assert(v1.drop_last() =~= v.drop_last());
        lemma_vis_sum_same(cells.drop_last(), v.drop_last(), k);
    }
}

/// From no visits: never more than the total weight, and, when the cells of
/// positive weight are all visited, exactly the total weight.
pub proof fn lemma_vis_sum_from_none(cells: Seq<SCell>, v: Seq<bool>, k: Weight)
    requires
        v.len() == cells.len(),
    ensures
        vis_sum(cells, no_visits(cells.len()), v, k) <= weight_sum(cells, k),
        (forall|i: int| 0 <= i < cells.len() && cell_weight(cells[i], k) > 0 ==> #[trigger] v[i])
            ==> vis_sum(cells, no_visits(cells.len()), v, k) == weight_sum(cells, k),
        vis_sum(cells, no_visits(cells.len()), v, k) == weight_sum(cells, k) ==> forall|i: int|
            0 <= i < cells.len() && cell_weight(cells[i], k) > 0 ==> #[trigger] v[i],
    decreases cells.len(),
{
    if cells.len() > 0 {
        let n = cells.len() - 1;
        assert(no_visits(cells.len()).drop_last() =~= no_visits(n as nat));
        lemma_vis_sum_from_none(cells.drop_last(), v.drop_last(), k);
        if vis_sum(cells, no_visits(cells.len()), v, k) == weight_sum(cells, k) {
            assert forall|i: int| 0 <= i < cells.len() && cell_weight(cells[i], k) > 0 implies #[trigger] v[i] by {
                if i < n {
                    assert(cells.drop_last()[i] == cells[i]);
                    assert(v.drop_last()[i] == v[i]);
                }
            }
        }
        if forall|i: int| 0 <= i < cells.len() && cell_weight(cells[i], k) > 0 ==> #[trigger] v[i] {
            assert forall|i: int|
                0 <= i < cells.drop_last().len() && cell_weight(cells.drop_last()[i], k) > 0 implies #[trigger] v.drop_last()[i] by {
                assert(cells.drop_last()[i] == cells[i]);
            }
            assert(cell_weight(cells[n], k) > 0 ==> v[n]);
        }
    }
}

/// Every cell is of a supported kind and refers into the arena.
pub open spec fn cells_ok(s: SState) -> bool {
    forall|c: int| 0 <= c < s.cells.len() ==> cell_ok(s, #[trigger] s.cells[c])
}

/// Reading a port visits cells, and finds in the tree exactly the nodes and
/// the named wire ends of the cells it newly visits (and of the port itself).
pub proof fn lemma_read_fill(s: SState, vis: Seq<bool>, f: SFill, fuel: nat)
    requires
        cells_ok(s),
        fill_ok(s, f),
        vis.len() == s.cells.len(),
    ensures
        ({
            let (t, v) = read_fill(s, vis, f, fuel);
            &&& vis_le(vis, v)
            &&& tree_nodes(t) == vis_sum(s.cells, vis, v, Weight::Node)
            &&& forall|k: CtrKind|
                #[trigger] tree_kind_nodes(t, k) == vis_sum(s.cells, vis, v, Weight::Kind(k))
            &&& forall|n: Seq<char>|
                #[trigger] tree_vars(t, n) == vis_sum(s.cells, vis, v, Weight::VarNamed(n))
                    + fill_weight(f, Weight::VarNamed(n))
            &&& forall|n: Seq<char>|
                #[trigger] tree_subs(t, n) == vis_sum(s.cells, vis, v, Weight::SubNamed(n))
                    + fill_weight(f, Weight::SubNamed(n))
        }),
    decreases fuel, 1int,
{
    match f {
        SFill::Cell(c) => {
            lemma_read_cell(s, vis, c, fuel);
        },
        _ => {
            lemma_vis_sum_same(s.cells, vis, Weight::Node);
            assert forall|k: CtrKind|
                #[trigger] tree_kind_nodes(read_fill(s, vis, f, fuel).0, k) == vis_sum(
                    s.cells,
                    vis,
                    vis,
                    Weight::Kind(k),
                ) by {
                lemma_vis_sum_same(s.cells, vis, Weight::Kind(k));
            }
            assert forall|n: Seq<char>|
                #[trigger] tree_vars(read_fill(s, vis, f, fuel).0, n) == vis_sum(
                    s.cells,
                    vis,
                    vis,
                    Weight::VarNamed(n),
                ) + fill_weight(f, Weight::VarNamed(n)) by {
                lemma_vis_sum_same(s.cells, vis, Weight::VarNamed(n));
            }
            assert forall|n: Seq<char>|
                #[trigger] tree_subs(read_fill(s, vis, f, fuel).0, n) == vis_sum(
                    s.cells,
                    vis,
                    vis,
                    Weight::SubNamed(n),
                ) + fill_weight(f, Weight::SubNamed(n)) by {
                lemma_vis_sum_same(s.cells, vis, Weight::SubNamed(n));
            }
        },
    }
}

/// Reading a cell finds in the tree exactly the nodes and named wire ends of
/// the cells it newly visits.
pub proof fn lemma_read_cell(s: SState, vis: Seq<bool>, c: nat, fuel: nat)
    requires
        cells_ok(s),
        vis.len() == s.cells.len(),
    ensures
        ({
            let (t, v) = read_cell(s, vis, c, fuel);
            &&& vis_le(vis, v)
            &&& tree_nodes(t) == vis_sum(s.cells, vis, v, Weight::Node)
            &&& forall|k: CtrKind|
                #[trigger] tree_kind_nodes(t, k) == vis_sum(s.cells, vis, v, Weight::Kind(k))
            &&& forall|n: Seq<char>|
                #[trigger] tree_vars(t, n) == vis_sum(s.cells, vis, v, Weight::VarNamed(n))
            &&& forall|n: Seq<char>|
                #[trigger] tree_subs(t, n) == vis_sum(s.cells, vis, v, Weight::SubNamed(n))
        }),
    decreases fuel, 0int,
{
    let (t, v) = read_cell(s, vis, c, fuel);
    if fuel == 0 || c >= s.cells.len() || c >= vis.len() || vis[c as int] {
        lemma_vis_sum_same(s.cells, vis, Weight::Node);
        assert forall|k: CtrKind|
            #[trigger] tree_kind_nodes(t, k) == vis_sum(s.cells, vis, v, Weight::Kind(k)) by {
            lemma_vis_sum_same(s.cells, vis, Weight::Kind(k));
        }
        assert forall|n: Seq<char>|
            #[trigger] tree_vars(t, n) == vis_sum(s.cells, vis, v, Weight::VarNamed(n)) by {
            lemma_vis_sum_same(s.cells, vis, Weight::VarNamed(n));
        }
        assert forall|n: Seq<char>|
            #[trigger] tree_subs(t, n) == vis_sum(s.cells, vis, v, Weight::SubNamed(n)) by {
            lemma_vis_sum_same(s.cells, vis, Weight::SubNamed(n));
        }
    } else {
        let ci = c as int;
        let v1 = vis.update(ci, true);
        assert(vis_le(vis, v1));
        lemma_vis_sum_one(s.cells, vis, ci, Weight::Node);
        assert(cell_ok(s, s.cells[ci]));
        match s.cells[ci] {
            SCell::Node(k, a, b) => {
                let fu = (fuel - 1) as nat;
                let (ta, v2) = read_fill(s, v1, a, fu);
                lemma_read_fill(s, v1, a, fu);
                let (tb, v3) = read_fill(s, v2, b, fu);
                lemma_read_fill(s, v2, b, fu);
                lemma_vis_sum_trans(s.cells, vis, v1, v2, Weight::Node);
                lemma_vis_sum_trans(s.cells, vis, v2, v3, Weight::Node);
                assert(vis_le(vis, v2));
                assert forall|kk: CtrKind|
                    #[trigger] tree_kind_nodes(t, kk) == vis_sum(s.cells, vis, v, Weight::Kind(kk)) by {
                    let w = Weight::Kind(kk);
                    lemma_vis_sum_one(s.cells, vis, ci, w);
                    lemma_vis_sum_trans(s.cells, vis, v1, v2, w);
                    lemma_vis_sum_trans(s.cells, vis, v2, v3, w);
                    assert(tree_kind_nodes(ta, kk) == vis_sum(s.cells, v1, v2, w));
                    assert(tree_kind_nodes(tb, kk) == vis_sum(s.cells, v2, v3, w));
                }
                assert forall|n: Seq<char>|
                    #[trigger] tree_vars(t, n) == vis_sum(s.cells, vis, v, Weight::VarNamed(n)) by {
                    let w = Weight::VarNamed(n);
                    lemma_vis_sum_one(s.cells, vis, ci, w);
                    lemma_vis_sum_trans(s.cells, vis, v1, v2, w);
                    lemma_vis_sum_trans(s.cells, vis, v2, v3, w);
                    assert(tree_vars(ta, n) == vis_sum(s.cells, v1, v2, w) + fill_weight(a, w));
                    assert(tree_vars(tb, n) == vis_sum(s.cells, v2, v3, w) + fill_weight(b, w));
                }
                assert forall|n: Seq<char>|
                    #[trigger] tree_subs(t, n) == vis_sum(s.cells, vis, v, Weight::SubNamed(n)) by {
                    let w = Weight::SubNamed(n);
                    lemma_vis_sum_one(s.cells, vis, ci, w);
                    lemma_vis_sum_trans(s.cells, vis, v1, v2, w);
                    lemma_vis_sum_trans(s.cells, vis, v2, v3, w);
                    assert(tree_subs(ta, n) == vis_sum(s.cells, v1, v2, w) + fill_weight(a, w));
                    assert(tree_subs(tb, n) == vis_sum(s.cells, v2, v3, w) + fill_weight(b, w));
                }
            },
            _ => {
                assert forall|kk: CtrKind|
                    #[trigger] tree_kind_nodes(t, kk) == vis_sum(s.cells, vis, v, Weight::Kind(kk)) by {
                    lemma_vis_sum_one(s.cells, vis, ci, Weight::Kind(kk));
                }
                assert forall|n: Seq<char>|
                    #[trigger] tree_vars(t, n) == vis_sum(s.cells, vis, v, Weight::VarNamed(n)) by {
                    lemma_vis_sum_one(s.cells, vis, ci, Weight::VarNamed(n));
                }
                assert forall|n: Seq<char>|
                    #[trigger] tree_subs(t, n) == vis_sum(s.cells, vis, v, Weight::SubNamed(n)) by {
                    lemma_vis_sum_one(s.cells, vis, ci, Weight::SubNamed(n));
                }
            },
        }
    }
}

/// Reading a node cell gives a node of the cell's kind whose first port
/// holds the tree read from the cell's first port and whose second port
/// holds the tree read from its second port, in that order.
pub proof fn lemma_read_node_ports(s: SState, vis: Seq<bool>, c: nat, fuel: nat)
    requires
        0 < fuel,
        c < s.cells.len(),
        c < vis.len(),
        !vis[c as int],
        s.cells[c as int] is Node,
        node_kind(s.cells[c as int]->Node_0),
    ensures
        ({
            let (t, _) = read_cell(s, vis, c, fuel);
            let (ta, v2) = read_fill(s, vis.update(c as int, true), s.cells[c as int]->Node_1, (fuel
                - 1) as nat);
            let (tb, _) = read_fill(s, v2, s.cells[c as int]->Node_2, (fuel - 1) as nat);
            &&& tree_kind(t) == Some(s.cells[c as int]->Node_0)
            &&& tree_fst(t) == ta
            &&& tree_snd(t) == tb
        }),
{
    if let SCell::Node(k, a, b) = s.cells[c as int] {
        let (ta, v2) = read_fill(s, vis.update(c as int, true), a, (fuel - 1) as nat);
        let (tb, _) = read_fill(s, v2, b, (fuel - 1) as nat);
        lemma_node_of_ports(k, ta, tb);
    }
}

/// Every redex refers to cells of the arena.
pub open spec fn redexes_ok(s: SState) -> bool {
    forall|r: int|
        0 <= r < s.redexes.len() ==> #[trigger] s.redexes[r].0 < s.cells.len() && s.redexes[r].1
            < s.cells.len()
}

/// Reading the redexes finds exactly the nodes and named wire ends of the
/// cells it newly visits.
pub proof fn lemma_read_redexes(s: SState, vis: Seq<bool>, i: int, fuel: nat)
    requires
        cells_ok(s),
        vis.len() == s.cells.len(),
        0 <= i,
    ensures
        ({
            let (rb, v) = read_redexes(s, vis, i, fuel);
            &&& vis_le(vis, v)
            &&& rbag_nodes(rb) == vis_sum(s.cells, vis, v, Weight::Node)
            &&& forall|k: CtrKind|
                #[trigger] rbag_kind_nodes(rb, k) == vis_sum(s.cells, vis, v, Weight::Kind(k))
            &&& forall|n: Seq<char>|
                #[trigger] rbag_vars(rb, n) == vis_sum(
                    s.cells,
                    vis,
                    v,
                    Weight::VarNamed(n),
                )
            &&& forall|n: Seq<char>|
                #[trigger] rbag_subs(rb, n) == vis_sum(
                    s.cells,
                    vis,
                    v,
                    Weight::SubNamed(n),
                )
        }),
    decreases s.redexes.len() - i,
{
    let (rb, v) = read_redexes(s, vis, i, fuel);
    if i >= s.redexes.len() {
        lemma_vis_sum_same(s.cells, vis, Weight::Node);
        assert forall|k: CtrKind|
            #[trigger] rbag_kind_nodes(rb, k) == vis_sum(s.cells, vis, v, Weight::Kind(k)) by {
            lemma_vis_sum_same(s.cells, vis, Weight::Kind(k));
        }
        assert forall|n: Seq<char>|
            #[trigger] rbag_vars(rb, n) == vis_sum(
                s.cells,
                vis,
                v,
                Weight::VarNamed(n),
            ) by {
            lemma_vis_sum_same(s.cells, vis, Weight::VarNamed(n));
        }
        assert forall|n: Seq<char>|
            #[trigger] rbag_subs(rb, n) == vis_sum(
                s.cells,
                vis,
                v,
                Weight::SubNamed(n),
            ) by {
            lemma_vis_sum_same(s.cells, vis, Weight::SubNamed(n));
        }
    } else {
        let (tn, v1) = read_cell(s, vis, s.redexes[i].0, fuel);
        lemma_read_cell(s, vis, s.redexes[i].0, fuel);
        let (tp, v2) = read_cell(s, v1, s.redexes[i].1, fuel);
        lemma_read_cell(s, v1, s.redexes[i].1, fuel);
        let (rest, v3) = read_redexes(s, v2, i + 1, fuel);
        lemma_read_redexes(s, v2, i + 1, fuel);
        assert(rb.drop_first() =~= rest);
        assert(vis_le(vis, v2));
        lemma_vis_sum_trans(s.cells, vis, v1, v2, Weight::Node);
        lemma_vis_sum_trans(s.cells, vis, v2, v3, Weight::Node);
        assert forall|k: CtrKind|
            #[trigger] rbag_kind_nodes(rb, k) == vis_sum(s.cells, vis, v, Weight::Kind(k)) by {
            let w = Weight::Kind(k);
            lemma_vis_sum_trans(s.cells, vis, v1, v2, w);
            lemma_vis_sum_trans(s.cells, vis, v2, v3, w);
            assert(tree_kind_nodes(tn, k) == vis_sum(s.cells, vis, v1, w));
            assert(tree_kind_nodes(tp, k) == vis_sum(s.cells, v1, v2, w));
            assert(rbag_kind_nodes(rest, k) == vis_sum(s.cells, v2, v3, w));
        }
        assert forall|n: Seq<char>|
            #[trigger] rbag_vars(rb, n) == vis_sum(
                s.cells,
                vis,
                v,
                Weight::VarNamed(n),
            ) by {
            let w = Weight::VarNamed(n);
            lemma_vis_sum_trans(s.cells, vis, v1, v2, w);
            lemma_vis_sum_trans(s.cells, vis, v2, v3, w);
            assert(tree_vars(tn, n) == vis_sum(s.cells, vis, v1, w));
            assert(tree_vars(tp, n) == vis_sum(s.cells, v1, v2, w));
            assert(rbag_vars(rest, n) == vis_sum(s.cells, v2, v3, w));
        }
        assert forall|n: Seq<char>|
            #[trigger] rbag_subs(rb, n) == vis_sum(
                s.cells,
                vis,
                v,
                Weight::SubNamed(n),
            ) by {
            let w = Weight::SubNamed(n);
            lemma_vis_sum_trans(s.cells, vis, v1, v2, w);
            lemma_vis_sum_trans(s.cells, vis, v2, v3, w);
            assert(tree_subs(tn, n) == vis_sum(s.cells, vis, v1, w));
            assert(tree_subs(tp, n) == vis_sum(s.cells, v1, v2, w));
            assert(rbag_subs(rest, n) == vis_sum(s.cells, v2, v3, w));
        }
    }
}

/// The net read out of an arena holds exactly the nodes and named wire ends
/// of the cells reading visits, and of the root.
pub proof fn lemma_read_net(s: SState)
    requires
        cells_ok(s),
        fill_ok(s, s.root),
    ensures
        ({
            let (net, v) = read_net(s);
            let v0 = no_visits(s.cells.len());
            &&& vis_le(v0, v)
            &&& net_nodes(net) == vis_sum(s.cells, v0, v, Weight::Node)
            &&& forall|k: CtrKind|
                #[trigger] net_kind_nodes(net, k) == vis_sum(s.cells, v0, v, Weight::Kind(k))
            &&& forall|n: Seq<char>|
                #[trigger] net_vars(net, n) == vis_sum(s.cells, v0, v, Weight::VarNamed(n))
                    + fill_weight(s.root, Weight::VarNamed(n))
            &&& forall|n: Seq<char>|
                #[trigger] net_subs(net, n) == vis_sum(s.cells, v0, v, Weight::SubNamed(n))
                    + fill_weight(s.root, Weight::SubNamed(n))
        }),
{
    let fuel = s.cells.len();
    let v0 = no_visits(s.cells.len());
    let (root, v1) = read_fill(s, v0, s.root, fuel);
    lemma_read_fill(s, v0, s.root, fuel);
    let (rbag, v2) = read_redexes(s, v1, 0, fuel);
    lemma_read_redexes(s, v1, 0, fuel);
    lemma_vis_sum_trans(s.cells, v0, v1, v2, Weight::Node);
    assert forall|k: CtrKind|
        #[trigger] net_kind_nodes(read_net(s).0, k) == vis_sum(s.cells, v0, v2, Weight::Kind(k)) by {
        lemma_vis_sum_trans(s.cells, v0, v1, v2, Weight::Kind(k));
    }
    assert forall|n: Seq<char>|
        #[trigger] net_vars(read_net(s).0, n) == vis_sum(s.cells, v0, v2, Weight::VarNamed(n))
            + fill_weight(s.root, Weight::VarNamed(n)) by {
        lemma_vis_sum_trans(s.cells, v0, v1, v2, Weight::VarNamed(n));
    }
    assert forall|n: Seq<char>|
        #[trigger] net_subs(read_net(s).0, n) == vis_sum(s.cells, v0, v2, Weight::SubNamed(n))
            + fill_weight(s.root, Weight::SubNamed(n)) by {
        lemma_vis_sum_trans(s.cells, v0, v1, v2, Weight::SubNamed(n));
    }
}

/// Weights that agree on every cell give the same sum.
pub proof fn lemma_weight_ext(cells: Seq<SCell>, k1: Weight, k2: Weight)
    requires
        forall|c: SCell| #[trigger] cell_weight(c, k1) == cell_weight(c, k2),
    ensures
        weight_sum(cells, k1) == weight_sum(cells, k2),
    decreases cells.len(),
{
    if cells.len() > 0 {
        lemma_weight_ext(cells.drop_last(), k1, k2);
        assert(cell_weight(cells.last(), k1) == cell_weight(cells.last(), k2));
    }
}

/// How many ports (and the root) hold the `Var` end, and how many the `Sub`
/// end, of a wire named `n`: as many, and at most one.
pub proof fn lemma_named_ends(s: SState, live: Multiset<SPlace>, n: Seq<char>)
    requires
        inv(s, live),
    ensures
        total(s, Weight::VarNamed(n)) == total(s, Weight::SubNamed(n)),
        total(s, Weight::VarNamed(n)) <= 1,
{
    if exists|j: nat| spec_num_to_name(j) == n {
        let j = choose|j: nat| spec_num_to_name(j) == n;
        assert forall|f: SFill|
            #[trigger] fill_weight(f, Weight::VarNamed(n)) == fill_weight(
                f,
                Weight::Fill(SFill::Var(j)),
            ) by {
            if let SFill::Var(i) = f {
                if spec_num_to_name(i) == n {
                    lemma_num_to_name_injective(i, j);
                }
            }
        }
        assert forall|f: SFill|
            #[trigger] fill_weight(f, Weight::SubNamed(n)) == fill_weight(
                f,
                Weight::Fill(SFill::Sub(j)),
            ) by {
            if let SFill::Sub(i) = f {
                if spec_num_to_name(i) == n {
                    lemma_num_to_name_injective(i, j);
                }
            }
        }
        assert forall|c: SCell| #[trigger]
            cell_weight(c, Weight::VarNamed(n)) == cell_weight(c, Weight::Fill(SFill::Var(j))) by {
            if let SCell::Node(_, a, b) = c {
                assert(fill_weight(a, Weight::VarNamed(n)) == fill_weight(
                    a,
                    Weight::Fill(SFill::Var(j)),
                ));
                assert(fill_weight(b, Weight::VarNamed(n)) == fill_weight(
                    b,
                    Weight::Fill(SFill::Var(j)),
                ));
            }
        }
        assert forall|c: SCell| #[trigger]
            cell_weight(c, Weight::SubNamed(n)) == cell_weight(c, Weight::Fill(SFill::Sub(j))) by {
            if let SCell::Node(_, a, b) = c {
                assert(fill_weight(a, Weight::SubNamed(n)) == fill_weight(
                    a,
                    Weight::Fill(SFill::Sub(j)),
                ));
                assert(fill_weight(b, Weight::SubNamed(n)) == fill_weight(
                    b,
                    Weight::Fill(SFill::Sub(j)),
                ));
            }
        }
        lemma_weight_ext(s.cells, Weight::VarNamed(n), Weight::Fill(SFill::Var(j)));
        lemma_weight_ext(s.cells, Weight::SubNamed(n), Weight::Fill(SFill::Sub(j)));
        assert(fill_weight(s.root, Weight::VarNamed(n)) == fill_weight(
            s.root,
            Weight::Fill(SFill::Var(j)),
        ));
        assert(fill_weight(s.root, Weight::SubNamed(n)) == fill_weight(
            s.root,
            Weight::Fill(SFill::Sub(j)),
        ));
        assert(total(s, Weight::Fill(SFill::Var(j))) == if j < s.name_idx {
            1nat
        } else {
            0nat
        });
        assert(total(s, Weight::Fill(SFill::Sub(j))) == if j < s.name_idx {
            1nat
        } else {
            0nat
        });
    } else {
        assert forall|c: SCell| #[trigger]
            cell_weight(c, Weight::VarNamed(n)) == cell_weight(c, Weight::Node) * 0 by {
            if let SCell::Node(_, a, b) = c {
                if let SFill::Var(i) = a {
                    assert(spec_num_to_name(i) != n);
                }
                if let SFill::Var(i) = b {
                    assert(spec_num_to_name(i) != n);
                }
            }
        }
        assert forall|c: SCell| #[trigger]
            cell_weight(c, Weight::SubNamed(n)) == cell_weight(c, Weight::Node) * 0 by {
            if let SCell::Node(_, a, b) = c {
                if let SFill::Sub(i) = a {
                    assert(spec_num_to_name(i) != n);
                }
                if let SFill::Sub(i) = b {
                    assert(spec_num_to_name(i) != n);
                }
            }
        }
        lemma_weight_zero(s.cells, Weight::VarNamed(n));
        lemma_weight_zero(s.cells, Weight::SubNamed(n));
        if let SFill::Var(i) = s.root {
            assert(spec_num_to_name(i) != n);
        }
        if let SFill::Sub(i) = s.root {
            assert(spec_num_to_name(i) != n);
        }
    }
}

/// A weight that is zero on every cell sums to zero.
pub proof fn lemma_weight_zero(cells: Seq<SCell>, k: Weight)
    requires
        forall|c: SCell| #[trigger] cell_weight(c, k) == cell_weight(c, Weight::Node) * 0,
    ensures
        weight_sum(cells, k) == 0,
    decreases cells.len(),
{
    if cells.len() > 0 {
        lemma_weight_zero(cells.drop_last(), k);
        assert(cell_weight(cells.last(), k) == cell_weight(cells.last(), Weight::Node) * 0);
    }
}

/// When the net read out of a well-formed arena holds every created node,
/// every wire name occurs in it once as `Var` and once as `Sub`, or not at
/// all.
pub proof fn lemma_complete_net_names(s: SState, live: Multiset<SPlace>)
    requires
        inv(s, live),
        net_nodes(read_net(s).0) == s.created,
    ensures
        forall|n: Seq<char>|
            #[trigger] net_vars(read_net(s).0, n) == net_subs(read_net(s).0, n) && net_vars(
                read_net(s).0,
                n,
            ) <= 1,
{
    let (net, v) = read_net(s);
    let v0 = no_visits(s.cells.len());
    lemma_read_net(s);
    lemma_vis_sum_from_none(s.cells, v, Weight::Node);
    assert forall|n: Seq<char>|
        #[trigger] net_vars(read_net(s).0, n) == net_subs(read_net(s).0, n) && net_vars(
            read_net(s).0,
            n,
        ) <= 1 by {
        lemma_vis_sum_from_none(s.cells, v, Weight::VarNamed(n));
        lemma_vis_sum_from_none(s.cells, v, Weight::SubNamed(n));
        assert forall|i: int|
            0 <= i < s.cells.len() && cell_weight(s.cells[i], Weight::VarNamed(n)) > 0 implies #[trigger] v[i] by {
            assert(cell_weight(s.cells[i], Weight::Node) > 0);
        }
        assert forall|i: int|
            0 <= i < s.cells.len() && cell_weight(s.cells[i], Weight::SubNamed(n)) > 0 implies #[trigger] v[i] by {
            assert(cell_weight(s.cells[i], Weight::Node) > 0);
        }
        lemma_named_ends(s, live, n);
    }
}

/// The invariant makes the arena readable.
pub proof fn lemma_inv_cells_ok(s: SState, live: Multiset<SPlace>)
    requires
        inv(s, live),
    ensures
        cells_ok(s),
        fill_ok(s, s.root),
        redexes_ok(s),
        s.created == weight_sum(s.cells, Weight::Node),
{
}

// ===========================================================================
// Variables waiting for their second occurrence
// ===========================================================================

/// A place is recorded for the variable `(global, name)`.
pub open spec fn vars_has(vars: Seq<(bool, Seq<char>, SPlace)>, global: bool, name: Seq<char>) -> bool {
    exists|i: int| 0 <= i < vars.len() && #[trigger] vars[i].0 == global && vars[i].1 == name
}

/// No variable is recorded twice.
pub open spec fn vars_unique(vars: Seq<(bool, Seq<char>, SPlace)>) -> bool {
    forall|i: int, j: int|
        0 <= i < vars.len() && 0 <= j < vars.len() && i != j ==> (#[trigger] vars[i].0,
        vars[i].1) != (#[trigger] vars[j].0, vars[j].1)
}

/// An odd number.
pub open spec fn odd(x: nat) -> bool {
    x % 2 == 1
}

/// The parity of a sum.
pub proof fn lemma_odd_add(a: nat, b: nat)
    ensures
        odd(a + b) == (odd(a) != odd(b)),
{
}

/// Occurrences of `(global, name)` in the pending lets.
pub open spec fn lets_occ(lets: Seq<(Pattern, Term)>, global: bool, name: Seq<char>) -> nat
    decreases lets.len(),
{
    if lets.len() == 0 {
        0
    } else {
        lets_occ(lets.drop_last(), global, name) + pat_binds(lets.last().0, global, name)
            + term_occ(lets.last().1, global, name)
    }
}

/// A variable not found has no matching entry.
pub proof fn lemma_find_var_none(
    vars: Seq<(bool, Seq<char>, SPlace)>,
    global: bool,
    name: Seq<char>,
    i: int,
)
    requires
        0 <= i,
        find_var(vars, global, name, i) is None,
    ensures
        forall|j: int| i <= j < vars.len() ==> !(vars[j].0 == global && vars[j].1 == name),
    decreases vars.len() - i,
{
    if i < vars.len() {
        lemma_find_var_none(vars, global, name, i + 1);
    }
}

/// Linking a variable occurrence flips whether its variable is waiting: the
/// first occurrence records it, the second removes it.
pub proof fn lemma_link_var_toggles(s: SState, global: bool, name: Seq<char>, place: SPlace)
    requires
        vars_unique(s.vars),
    ensures
        ({
            let s1 = link_var(s, global, name, place);
            &&& vars_unique(s1.vars)
            &&& forall|g: bool, n: Seq<char>|
                #[trigger] vars_has(s1.vars, g, n) == (vars_has(s.vars, g, n) != (g == global && n
                    == name))
        }),
{
    let s1 = link_var(s, global, name, place);
    lemma_find_var_range(s.vars, global, name, 0);
    match find_var(s.vars, global, name, 0) {
        Some(i) => {
            let v1 = SState { vars: s.vars.remove(i), ..s };
            lemma_link_vars(v1, place, s.vars[i].2);
            assert(s1.vars == s.vars.remove(i));
            assert forall|g: bool, n: Seq<char>|
                #[trigger] vars_has(s1.vars, g, n) == (vars_has(s.vars, g, n) != (g == global && n
                    == name)) by {
                if vars_has(s.vars, g, n) {
                    let k = choose|k: int|
                        0 <= k < s.vars.len() && #[trigger] s.vars[k].0 == g && s.vars[k].1 == n;
                    if !(g == global && n == name) {
                        assert(k != i);
                        if k < i {
                            assert(s1.vars[k] == s.vars[k]);
                        } else {
                            assert(s1.vars[k - 1] == s.vars[k]);
                        }
                    }
                }
                if vars_has(s1.vars, g, n) {
                    let k = choose|k: int|
                        0 <= k < s1.vars.len() && #[trigger] s1.vars[k].0 == g && s1.vars[k].1 == n;
                    if k < i {
                        assert(s1.vars[k] == s.vars[k]);
                    } else {
                        assert(s1.vars[k] == s.vars[k + 1]);
                    }
                }
            }
        },
        None => {
            lemma_find_var_none(s.vars, global, name, 0);
            assert(s1.vars == s.vars.push((global, name, place)));
            assert forall|g: bool, n: Seq<char>|
                #[trigger] vars_has(s1.vars, g, n) == (vars_has(s.vars, g, n) != (g == global && n
                    == name)) by {
                if vars_has(s.vars, g, n) {
                    let k = choose|k: int|
                        0 <= k < s.vars.len() && #[trigger] s.vars[k].0 == g && s.vars[k].1 == n;
                    assert(s1.vars[k] == s.vars[k]);
                }
                if g == global && n == name {
                    assert(s1.vars[s.vars.len() as int].0 == g);
                }
                if vars_has(s1.vars, g, n) && !(g == global && n == name) {
                    let k = choose|k: int|
                        0 <= k < s1.vars.len() && #[trigger] s1.vars[k].0 == g && s1.vars[k].1 == n;
                    assert(s1.vars[k] == s.vars[k]);
                }
            }
        },
    }
}

/// Linking leaves the recorded variables alone.
pub proof fn lemma_link_vars(s: SState, pos: SPlace, neg: SPlace)
    ensures
        link(s, pos, neg).vars == s.vars,
    decreases count_some(s.wires),
{
    match (pos, neg) {
        (SPlace::Wire(w), _) => {
            if w < s.wires.len() {
                if let Some(p) = s.wires[w as int] {
                    lemma_count_some_take(s.wires, w as int);
                    lemma_link_vars(SState { wires: s.wires.update(w as int, None), ..s }, p, neg);
                }
            }
        },
        (_, SPlace::Wire(w)) => {
            if w < s.wires.len() {
                if let Some(n) = s.wires[w as int] {
                    lemma_count_some_take(s.wires, w as int);
                    lemma_link_vars(SState { wires: s.wires.update(w as int, None), ..s }, pos, n);
                }
            }
        },
        _ => {},
    }
}

// ===========================================================================
// The kinds of node the encoding creates
// ===========================================================================

/// The node cells of kind `k` in the arena.
pub open spec fn kind_count(s: SState, k: CtrKind) -> nat {
    weight_sum(s.cells, Weight::Kind(k))
}

/// Nodes of kind `k` created by encoding the pending lets.
pub open spec fn lets_kind_nodes(lets: Seq<(Pattern, Term)>, k: CtrKind) -> nat
    decreases lets.len(),
{
    if lets.len() == 0 {
        0
    } else {
        lets_kind_nodes(lets.drop_last(), k) + pat_kind_nodes(lets.last().0, k) + term_kind_nodes(
            lets.last().1,
            k,
        )
    }
}

/// Writing a port keeps the kind of every cell.
proof fn lemma_kinds_set_fill(s: SState, hole: SPlace, f: SFill, k: CtrKind)
    ensures
        kind_count(set_fill(s, hole, f), k) == kind_count(s, k),
        set_fill(s, hole, f).cells.len() == s.cells.len(),
{
    if let SPlace::Hole(c, second) = hole {
        if c < s.cells.len() {
            if let SCell::Node(kind, a, b) = s.cells[c as int] {
                let x = if second {
                    SCell::Node(kind, a, f)
                } else {
                    SCell::Node(kind, f, b)
                };
                lemma_weight_update(s.cells, c as int, x, Weight::Kind(k));
            }
        }
    }
}

/// Linking keeps the kind of every cell.
proof fn lemma_kinds_link(s: SState, pos: SPlace, neg: SPlace, k: CtrKind)
    ensures
        kind_count(link(s, pos, neg), k) == kind_count(s, k),
    decreases count_some(s.wires),
{
    match (pos, neg) {
        (SPlace::Wire(w), _) => {
            if w < s.wires.len() {
                if let Some(p) = s.wires[w as int] {
                    lemma_count_some_take(s.wires, w as int);
                    lemma_kinds_link(SState { wires: s.wires.update(w as int, None), ..s }, p, neg, k);
                }
            }
        },
        (_, SPlace::Wire(w)) => {
            if w < s.wires.len() {
                if let Some(q) = s.wires[w as int] {
                    lemma_count_some_take(s.wires, w as int);
                    lemma_kinds_link(SState { wires: s.wires.update(w as int, None), ..s }, pos, q, k);
                }
            }
        },
        (SPlace::Tree(_), SPlace::Tree(_)) => {},
        (SPlace::Tree(t), _) => {
            lemma_kinds_set_fill(s, neg, SFill::Cell(t), k);
        },
        (_, SPlace::Tree(t)) => {
            lemma_kinds_set_fill(s, pos, SFill::Cell(t), k);
        },
        (_, _) => {
            let s1 = set_fill(s, pos, SFill::Var(s.name_idx));
            lemma_kinds_set_fill(s, pos, SFill::Var(s.name_idx), k);
            lemma_kinds_set_fill(s1, neg, SFill::Sub(s.name_idx), k);
        },
    }
}

/// Linking a variable occurrence keeps the kind of every cell.
proof fn lemma_kinds_link_var(s: SState, global: bool, name: Seq<char>, place: SPlace, k: CtrKind)
    ensures
        kind_count(link_var(s, global, name, place), k) == kind_count(s, k),
{
    if let Some(i) = find_var(s.vars, global, name, 0) {
        if 0 <= i < s.vars.len() {
            lemma_kinds_link(SState { vars: s.vars.remove(i), ..s }, place, s.vars[i].2, k);
        }
    }
}

/// A new leaf is no node; a new node counts for its kind.
proof fn lemma_kinds_new(s: SState, cell: SCell, kind: CtrKind, k: CtrKind)
    ensures
        kind_count(new_leaf(s, SCell::Era).0, k) == kind_count(s, k),
        kind_count(new_leaf(s, SCell::Del).0, k) == kind_count(s, k),
        (cell is Ref) ==> kind_count(new_leaf(s, cell).0, k) == kind_count(s, k),
        kind_count(new_ctr(s, kind).0, k) == kind_count(s, k) + if kind == k {
            1nat
        } else {
            0nat
        },
{
    lemma_weight_push(s.cells, SCell::Era, Weight::Kind(k));
    lemma_weight_push(s.cells, SCell::Del, Weight::Kind(k));
    lemma_weight_push(s.cells, cell, Weight::Kind(k));
    lemma_weight_push(s.cells, SCell::Node(kind, SFill::Era, SFill::Era), Weight::Kind(k));
}

/// Encoding a pattern adds exactly its nodes of each kind.
proof fn lemma_kinds_pat(s: SState, p: Pattern, up: SPlace, k: CtrKind)
    ensures
        kind_count(enc_pat(s, p, up), k) == kind_count(s, k) + pat_kind_nodes(p, k),
    decreases p, 0int,
{
    match p {
        Pattern::Var(None) => {
            let (s1, t) = new_leaf(s, SCell::Del);
            lemma_kinds_new(s, SCell::Del, CtrKind::Lam, k);
            lemma_kinds_link(s1, up, t, k);
        },
        Pattern::Var(Some(name)) => {
            lemma_kinds_link_var(s, false, name@, up, k);
        },
        Pattern::Chn(name) => {
            lemma_kinds_link_var(s, true, name@, up, k);
        },
        Pattern::Fan(fan, _, els) => {
            lemma_kinds_pat_list(s, spec_fan_kind(fan, false), up, els@, 0, k);
        },
        _ => {},
    }
}

/// Encoding the chain of a pattern fan from element `i` on adds a node of
/// the chain's kind for each element but the last, and the nodes of the
/// elements.
proof fn lemma_kinds_pat_list(s: SState, kind: CtrKind, up: SPlace, els: Seq<Pattern>, i: int, k: CtrKind)
    ensures
        kind_count(pat_list(s, kind, up, els, i), k) == kind_count(s, k) + (if 0 <= i < els.len()
            && kind == k {
            (els.len() - 1 - i) as nat
        } else {
            0nat
        }) + pats_kind_nodes(els, i, k),
    decreases els, els.len() - i,
{
    if i < 0 || i >= els.len() {
    } else if i == els.len() - 1 {
        lemma_kinds_pat(s, els[i], up, k);
        assert(pats_kind_nodes(els, i + 1, k) == 0);
        assert(pats_kind_nodes(els, i, k) == pat_kind_nodes(els[i], k));
        assert(pat_list(s, kind, up, els, i) == enc_pat(s, els[i], up));
    } else {
        let (s1, n0, n1, n2) = new_ctr(s, kind);
        lemma_kinds_new(s, SCell::Era, kind, k);
        let s2 = link_polar(s1, n0, up, false);
        lemma_kinds_link(s1, up, n0, k);
        let s3 = enc_pat(s2, els[i], n1);
        lemma_kinds_pat(s2, els[i], n1, k);
        lemma_kinds_pat_list(s3, kind, n2, els, i + 1, k);
        assert(pats_kind_nodes(els, i, k) == pat_kind_nodes(els[i], k) + pats_kind_nodes(
            els,
            i + 1,
            k,
        ));
        assert(pat_list(s, kind, up, els, i) == pat_list(s3, kind, n2, els, i + 1));
    }
}

/// Encoding a term, then the pending lets, adds exactly their nodes of each
/// kind.
proof fn lemma_kinds_term(s: SState, lets: Seq<(Pattern, Term)>, t: Term, up: SPlace, k: CtrKind)
    ensures
        kind_count(enc_term(s, lets, t, up), k) == kind_count(s, k) + term_kind_nodes(t, k)
            + lets_kind_nodes(lets, k),
    decreases term_size(t) + lets_size(lets), 1int,
{
    match t {
        Term::Era => {
            let (s1, e) = new_leaf(s, SCell::Era);
            lemma_kinds_new(s, SCell::Era, CtrKind::Lam, k);
            lemma_kinds_link(s1, up, e, k);
            lemma_kinds_drain(link(s1, up, e), lets, k);
        },
        Term::Var { nam } => {
            lemma_kinds_link_var(s, false, nam@, up, k);
            lemma_kinds_drain(link_var(s, false, nam@, up), lets, k);
        },
        Term::Link { nam } => {
            lemma_kinds_link_var(s, true, nam@, up, k);
            lemma_kinds_drain(link_var(s, true, nam@, up), lets, k);
        },
        Term::Ref { nam } => {
            let (s1, r) = new_leaf(s, SCell::Ref(nam@));
            lemma_kinds_new(s, SCell::Ref(nam@), CtrKind::Lam, k);
            lemma_kinds_link(s1, up, r, k);
            lemma_kinds_drain(link(s1, up, r), lets, k);
        },
        Term::Lam { pat, bod, .. } => {
            let (s1, n0, n1, n2) = new_ctr(s, CtrKind::Lam);
            lemma_kinds_new(s, SCell::Era, CtrKind::Lam, k);
            let s2 = link(s1, up, n0);
            lemma_kinds_link(s1, up, n0, k);
            let s3 = enc_pat(s2, *pat, n1);
            lemma_kinds_pat(s2, *pat, n1, k);
            lemma_kinds_term(s3, lets, *bod, n2, k);
        },
        Term::App { fun, arg, .. } => {
            let (s1, n0, n1, n2) = new_ctr(s, CtrKind::App);
            lemma_kinds_new(s, SCell::Era, CtrKind::App, k);
            let s2 = enc_term(s1, lets, *fun, n0);
            lemma_kinds_term(s1, lets, *fun, n0, k);
            let s3 = enc_term(s2, Seq::empty(), *arg, n1);
            assert(lets_size(Seq::<(Pattern, Term)>::empty()) == 0);
            lemma_kinds_term(s2, Seq::empty(), *arg, n1, k);
            lemma_kinds_link(s3, up, n2, k);
        },
        Term::Let { pat, val, nxt } => {
            assert(lets.push((*pat, *val)).drop_last() =~= lets);
            lemma_kinds_term(s, lets.push((*pat, *val)), *nxt, up, k);
        },
        Term::Fan { fan, els, .. } => {
            lemma_kinds_term_list(s, lets, spec_fan_kind(fan, true), up, els@, 0, k);
        },
        _ => {
            lemma_kinds_drain(s, lets, k);
        },
    }
}

/// Encoding the pending lets adds exactly their nodes of each kind.
proof fn lemma_kinds_drain(s: SState, lets: Seq<(Pattern, Term)>, k: CtrKind)
    ensures
        kind_count(drain(s, lets), k) == kind_count(s, k) + lets_kind_nodes(lets, k),
    decreases lets_size(lets), 0int,
{
    if lets.len() > 0 {
        let (pat, val) = lets.last();
        let (s1, w) = new_wire(s);
        let s2 = enc_pat(s1, pat, SPlace::Wire(w));
        lemma_kinds_pat(s1, pat, SPlace::Wire(w), k);
        assert(lets_size(lets) == lets_size(lets.drop_last()) + pat_size(pat) + term_size(val));
        lemma_kinds_term(s2, lets.drop_last(), val, SPlace::Wire(w), k);
    }
}

/// Encoding the chain of a term fan from element `i` on, then the pending
/// lets, adds a node of the chain's kind for each element but the last, and
/// the nodes of the elements and of the lets.
proof fn lemma_kinds_term_list(
    s: SState,
    lets: Seq<(Pattern, Term)>,
    kind: CtrKind,
    up: SPlace,
    els: Seq<Term>,
    i: int,
    k: CtrKind,
)
    ensures
        kind_count(term_list(s, lets, kind, up, els, i), k) == kind_count(s, k) + (if 0 <= i
            < els.len() && kind == k {
            (els.len() - 1 - i) as nat
        } else {
            0nat
        }) + terms_kind_nodes(els, i, k) + lets_kind_nodes(lets, k),
    decreases terms_size(els, i) + lets_size(lets), 2int,
{
    if i < 0 || i >= els.len() {
        lemma_kinds_drain(s, lets, k);
    } else if i == els.len() - 1 {
        assert(terms_size(els, i) == term_size(els[i]) + terms_size(els, i + 1));
        lemma_kinds_term(s, lets, els[i], up, k);
        assert(terms_kind_nodes(els, i + 1, k) == 0);
        assert(terms_kind_nodes(els, i, k) == term_kind_nodes(els[i], k));
        assert(term_list(s, lets, kind, up, els, i) == enc_term(s, lets, els[i], up));
    } else {
        let (s1, n0, n1, n2) = new_ctr(s, kind);
        lemma_kinds_new(s, SCell::Era, kind, k);
        let s2 = link_polar(s1, n0, up, true);
        lemma_kinds_link(s1, n0, up, k);
        let s3 = enc_term(s2, lets, els[i], n1);
        assert(terms_size(els, i) == term_size(els[i]) + terms_size(els, i + 1));
        assert(lets_size(Seq::<(Pattern, Term)>::empty()) == 0);
        assert(term_size(els[i]) >= 1);
        lemma_kinds_term(s2, lets, els[i], n1, k);
        lemma_kinds_term_list(s3, Seq::empty(), kind, n2, els, i + 1, k);
        assert(lets_kind_nodes(Seq::<(Pattern, Term)>::empty(), k) == 0);
        assert(terms_kind_nodes(els, i, k) == term_kind_nodes(els[i], k) + terms_kind_nodes(
            els,
            i + 1,
            k,
        ));
        assert(term_list(s, lets, kind, up, els, i) == term_list(
            s3,
            Seq::empty(),
            kind,
            n2,
            els,
            i + 1,
        ));
    }
}

/// The arena of an encoded term holds exactly the term's nodes of each
/// kind.
pub proof fn lemma_encoded_kinds(t: Term, k: CtrKind)
    ensures
        kind_count(encoded(t), k) == term_kind_nodes(t, k),
{
    lemma_kinds_term(initial_state(), Seq::empty(), t, SPlace::Root, k);
}

// ===========================================================================
// The shape of a pattern fan's chain
// ===========================================================================

/// The name a variable pattern binds (empty for other patterns).
pub open spec fn var_pat_name(p: Pattern) -> Seq<char> {
    match p {
        Pattern::Var(Some(x)) => x@,
        _ => Seq::empty(),
    }
}

/// A variable pattern that binds a name.
pub open spec fn is_named_var(p: Pattern) -> bool {
    p matches Pattern::Var(Some(_))
}

/// Elements that are all named variables, no name twice, none of them
/// already waiting among `vars`.
pub open spec fn fresh_var_pats(els: Seq<Pattern>, vars: Seq<(bool, Seq<char>, SPlace)>) -> bool {
    &&& forall|j: int| 0 <= j < els.len() ==> is_named_var(#[trigger] els[j])
    &&& forall|j: int, m: int|
        0 <= j < els.len() && 0 <= m < els.len() && j != m ==> var_pat_name(#[trigger] els[j])
            != var_pat_name(#[trigger] els[m])
    &&& forall|j: int|
        0 <= j < els.len() ==> !vars_has(vars, false, var_pat_name(#[trigger] els[j]))
}

/// A place that is not a port of a cell at or beyond `n`.
pub open spec fn refs_below(p: SPlace, n: nat) -> bool {
    match p {
        SPlace::Hole(c, _) => c < n,
        _ => true,
    }
}

/// No wire holds a port of a cell at or beyond `n`.
pub open spec fn wires_below(s: SState, n: nat) -> bool {
    forall|w: int| 0 <= w < s.wires.len() ==> (#[trigger] s.wires[w] matches Some(p) ==> refs_below(p, n))
}

/// Linking places that are not ports of the cells from `n` on leaves those
/// cells, and the number of cells, alone.
pub proof fn lemma_link_frame(s: SState, pos: SPlace, neg: SPlace, n: nat)
    requires
        refs_below(pos, n),
        refs_below(neg, n),
        wires_below(s, n),
    ensures
        link(s, pos, neg).cells.len() == s.cells.len(),
        forall|m: int| n <= m < s.cells.len() ==> #[trigger] link(s, pos, neg).cells[m] == s.cells[m],
    decreases count_some(s.wires),
{
    match (pos, neg) {
        (SPlace::Wire(w), _) => {
            if w < s.wires.len() {
                if let Some(p) = s.wires[w as int] {
                    lemma_count_some_take(s.wires, w as int);
                    let s1 = SState { wires: s.wires.update(w as int, None), ..s };
                    assert(refs_below(p, n));
                    assert(wires_below(s1, n));
                    lemma_link_frame(s1, p, neg, n);
                }
            }
        },
        (_, SPlace::Wire(w)) => {
            if w < s.wires.len() {
                if let Some(q) = s.wires[w as int] {
                    lemma_count_some_take(s.wires, w as int);
                    let s1 = SState { wires: s.wires.update(w as int, None), ..s };
                    assert(refs_below(q, n));
                    assert(wires_below(s1, n));
                    lemma_link_frame(s1, pos, q, n);
                }
            }
        },
        _ => {},
    }
}

/// A variable that is not waiting is recorded at its place.
proof fn lemma_link_fresh_var(s: SState, name: Seq<char>, place: SPlace)
    requires
        !vars_has(s.vars, false, name),
    ensures
        link_var(s, false, name, place) == (SState {
            vars: s.vars.push((false, name, place)),
            ..s
        }),
{
    lemma_find_var_range(s.vars, false, name, 0);
    if let Some(j) = find_var(s.vars, false, name, 0) {
        assert(s.vars[j].0 == false && s.vars[j].1 == name);
    }
}

/// The chain from its second node on (see `lemma_pat_list_chain`): `c` is
/// the node before, whose second port continues the chain.
proof fn lemma_pat_list_chain_from(s: SState, kind: CtrKind, c: nat, els: Seq<Pattern>, i: int)
    requires
        1 <= i < els.len(),
        c + 1 == s.cells.len(),
        s.cells[c as int] == SCell::Node(kind, SFill::Era, SFill::Era),
        fresh_var_pats(els.subrange(i, els.len() as int), s.vars),
    ensures
        ({
            let s1 = pat_list(s, kind, SPlace::Hole(c, true), els, i);
            let m = els.len() - 1 - i;
            &&& s1.cells.len() == c + 1 + m
            &&& forall|x: int| 0 <= x < c ==> #[trigger] s1.cells[x] == s.cells[x]
            &&& s1.cells[c as int] == SCell::Node(
                kind,
                SFill::Era,
                if m > 0 {
                    SFill::Cell(c + 1)
                } else {
                    SFill::Era
                },
            )
            &&& forall|j: int|
                0 <= j < m ==> #[trigger] s1.cells[c + 1 + j] == SCell::Node(
                    kind,
                    SFill::Era,
                    if j + 1 < m {
                        SFill::Cell((c + 2 + j) as nat)
                    } else {
                        SFill::Era
                    },
                )
            &&& s1.vars == s.vars + Seq::new(
                (els.len() - i) as nat,
                |j: int|
                    (
                        false,
                        var_pat_name(els[i + j]),
                        if j < m {
                            SPlace::Hole((c + 1 + j) as nat, false)
                        } else {
                            SPlace::Hole((c + m) as nat, true)
                        },
                    ),
            )
        }),
    decreases els.len() - i,
{
    let rest = els.subrange(i, els.len() as int);
    assert(rest[0] == els[i]);
    assert(is_named_var(rest[0]));
    let x = var_pat_name(els[i]);
    assert(!vars_has(s.vars, false, x));
    let s1 = pat_list(s, kind, SPlace::Hole(c, true), els, i);
    let m = els.len() - 1 - i;
    if i == els.len() - 1 {
        lemma_link_fresh_var(s, x, SPlace::Hole(c, true));
        assert(s1 == enc_pat(s, els[i], SPlace::Hole(c, true)));
        assert(s1 == link_var(s, false, x, SPlace::Hole(c, true)));
        assert(s1.vars == s.vars.push((false, x, SPlace::Hole(c, true))));
        assert(s1.vars =~= s.vars + Seq::new(
            (els.len() - i) as nat,
            |j: int|
                (
                    false,
                    var_pat_name(els[i + j]),
                    if j < m {
                        SPlace::Hole((c + 1 + j) as nat, false)
                    } else {
                        SPlace::Hole((c + m) as nat, true)
                    },
                ),
        ));
    } else {
        let (sa, n0, n1, n2) = new_ctr(s, kind);
        let sb = link_polar(sa, n0, SPlace::Hole(c, true), false);
        assert(sb == set_fill(sa, SPlace::Hole(c, true), SFill::Cell(c + 1)));
        assert(sb.cells =~= sa.cells.update(
            c as int,
            SCell::Node(kind, SFill::Era, SFill::Cell(c + 1)),
        ));
        let sc = enc_pat(sb, els[i], n1);
        lemma_link_fresh_var(sb, x, SPlace::Hole(c + 1, false));
        assert(sc.vars == s.vars.push((false, x, SPlace::Hole(c + 1, false))));
        let rest2 = els.subrange(i + 1, els.len() as int);
        assert forall|j: int| 0 <= j < rest2.len() implies is_named_var(#[trigger] rest2[j]) by {
            assert(rest2[j] == rest[j + 1]);
        }
        assert forall|j: int, q: int|
            0 <= j < rest2.len() && 0 <= q < rest2.len() && j != q implies var_pat_name(
            #[trigger] rest2[j],
        ) != var_pat_name(#[trigger] rest2[q]) by {
            assert(rest2[j] == rest[j + 1]);
            assert(rest2[q] == rest[q + 1]);
        }
        assert forall|j: int|
            0 <= j < rest2.len() implies !vars_has(sc.vars, false, var_pat_name(#[trigger] rest2[j])) by {
            assert(rest2[j] == rest[j + 1]);
            assert(var_pat_name(rest[j + 1]) != var_pat_name(rest[0]));
            assert(!vars_has(s.vars, false, var_pat_name(rest[j + 1])));
            if vars_has(sc.vars, false, var_pat_name(rest2[j])) {
                let k = choose|k: int|
                    0 <= k < sc.vars.len() && #[trigger] sc.vars[k].0 == false && sc.vars[k].1
                        == var_pat_name(rest2[j]);
                if k < s.vars.len() {
                    assert(sc.vars[k] == s.vars[k]);
                }
            }
        }
        lemma_pat_list_chain_from(sc, kind, c + 1, els, i + 1);
        let tail = Seq::new(
            (els.len() - i - 1) as nat,
            |j: int|
                (
                    false,
                    var_pat_name(els[i + 1 + j]),
                    if j < m - 1 {
                        SPlace::Hole((c + 2 + j) as nat, false)
                    } else {
                        SPlace::Hole((c + 1 + m - 1) as nat, true)
                    },
                ),
        );
        assert(s1.vars == sc.vars + tail);
        assert(s1.vars =~= s.vars + Seq::new(
            (els.len() - i) as nat,
            |j: int|
                (
                    false,
                    var_pat_name(els[i + j]),
                    if j < m {
                        SPlace::Hole((c + 1 + j) as nat, false)
                    } else {
                        SPlace::Hole((c + m) as nat, true)
                    },
                ),
        ));
        assert forall|j: int|
            0 <= j < m implies #[trigger] s1.cells[c + 1 + j] == SCell::Node(
            kind,
            SFill::Era,
            if j + 1 < m {
                SFill::Cell((c + 2 + j) as nat)
            } else {
                SFill::Era
            },
        ) by {
            if j > 0 {
                assert(s1.cells[(c + 1) + 1 + (j - 1)] == s1.cells[c + 1 + j]);
            }
        }
    }
}

/// The chain of a pattern fan whose elements are distinct variables, none
/// of them waiting yet, with `c0` the first new cell: element `i` of all but
/// the last waits at the first port of node `c0 + i`, each node but the last
/// goes on through its second port into the next node, and the last element
/// waits at the second port of the last node; the nodes are of the fan's
/// kind, and their first ports stay empty until the variables are used.
pub proof fn lemma_pat_list_chain(s: SState, kind: CtrKind, up: SPlace, els: Seq<Pattern>)
    requires
        els.len() >= 2,
        fresh_var_pats(els, s.vars),
        refs_below(up, s.cells.len()),
        wires_below(s, s.cells.len()),
    ensures
        ({
            let s1 = pat_list(s, kind, up, els, 0);
            let c0 = s.cells.len();
            let k = els.len();
            &&& s1.cells.len() == c0 + k - 1
            &&& forall|j: int|
                0 <= j < k - 1 ==> #[trigger] s1.cells[c0 + j] == SCell::Node(
                    kind,
                    SFill::Era,
                    if j + 1 < k - 1 {
                        SFill::Cell((c0 + j + 1) as nat)
                    } else {
                        SFill::Era
                    },
                )
            &&& s1.vars == s.vars + Seq::new(
                k,
                |j: int|
                    (
                        false,
                        var_pat_name(els[j]),
                        if j < k - 1 {
                            SPlace::Hole((c0 + j) as nat, false)
                        } else {
                            SPlace::Hole((c0 + k - 2) as nat, true)
                        },
                    ),
            )
        }),
{
    let c0 = s.cells.len();
    let k = els.len();
    let s1 = pat_list(s, kind, up, els, 0);
    let x = var_pat_name(els[0]);
    assert(is_named_var(els[0]));
    assert(!vars_has(s.vars, false, x));
    let (sa, n0, n1, n2) = new_ctr(s, kind);
    assert(wires_below(sa, c0));
    let sb = link(sa, up, n0);
    lemma_link_frame(sa, up, n0, c0);
    lemma_link_vars(sa, up, n0);
    assert(sb.cells[c0 as int] == SCell::Node(kind, SFill::Era, SFill::Era));
    let sc = enc_pat(sb, els[0], n1);
    lemma_link_fresh_var(sb, x, SPlace::Hole(c0, false));
    assert(sc.vars == s.vars.push((false, x, SPlace::Hole(c0, false))));
    let rest = els.subrange(1, els.len() as int);
    assert forall|j: int| 0 <= j < rest.len() implies is_named_var(#[trigger] rest[j]) by {
        assert(rest[j] == els[j + 1]);
    }
    assert forall|j: int, q: int|
        0 <= j < rest.len() && 0 <= q < rest.len() && j != q implies var_pat_name(
        #[trigger] rest[j],
    ) != var_pat_name(#[trigger] rest[q]) by {
        assert(rest[j] == els[j + 1]);
        assert(rest[q] == els[q + 1]);
    }
    assert forall|j: int|
        0 <= j < rest.len() implies !vars_has(sc.vars, false, var_pat_name(#[trigger] rest[j])) by {
        assert(rest[j] == els[j + 1]);
        assert(var_pat_name(els[j + 1]) != var_pat_name(els[0]));
        assert(!vars_has(s.vars, false, var_pat_name(els[j + 1])));
        if vars_has(sc.vars, false, var_pat_name(rest[j])) {
            let q = choose|q: int|
                0 <= q < sc.vars.len() && #[trigger] sc.vars[q].0 == false && sc.vars[q].1
                    == var_pat_name(rest[j]);
            if q < s.vars.len() {
                assert(sc.vars[q] == s.vars[q]);
            }
        }
    }
    lemma_pat_list_chain_from(sc, kind, c0, els, 1);
    let m = k - 2;
    let tail = Seq::new(
        (k - 1) as nat,
        |j: int|
            (
                false,
                var_pat_name(els[1 + j]),
                if j < m {
                    SPlace::Hole((c0 + 1 + j) as nat, false)
                } else {
                    SPlace::Hole((c0 + m) as nat, true)
                },
            ),
    );
    assert(s1.vars == sc.vars + tail);
    assert(s1.vars =~= s.vars + Seq::new(
        k,
        |j: int|
            (
                false,
                var_pat_name(els[j]),
                if j < k - 1 {
                    SPlace::Hole((c0 + j) as nat, false)
                } else {
                    SPlace::Hole((c0 + k - 2) as nat, true)
                },
            ),
    ));
    assert forall|j: int|
        0 <= j < k - 1 implies #[trigger] s1.cells[c0 + j] == SCell::Node(
        kind,
        SFill::Era,
        if j + 1 < k - 1 {
            SFill::Cell((c0 + j + 1) as nat)
        } else {
            SFill::Era
        },
    ) by {
        if j > 0 {
            assert(s1.cells[c0 + 1 + (j - 1)] == s1.cells[c0 + j]);
        }
    }
}

/// The name a variable term uses (empty for other terms).
pub open spec fn var_term_name(t: Term) -> Seq<char> {
    match t {
        Term::Var { nam } => nam@,
        _ => Seq::empty(),
    }
}

/// A term that is a variable.
pub open spec fn is_var_term(t: Term) -> bool {
    t is Var
}

/// A variable term with no pending lets links its name at its place.
proof fn lemma_enc_var_term(s: SState, t: Term, up: SPlace)
    requires
        is_var_term(t),
    ensures
        enc_term(s, Seq::empty(), t, up) == link_var(s, false, var_term_name(t), up),
{
    if let Term::Var { nam } = t {
        let s1 = link_var(s, false, nam@, up);
        assert(drain(s1, Seq::<(Pattern, Term)>::empty()) == s1);
    }
}

/// Elements that are all variables, no name twice, none of them already
/// waiting among `vars`.
pub open spec fn fresh_var_terms(els: Seq<Term>, vars: Seq<(bool, Seq<char>, SPlace)>) -> bool {
    &&& forall|j: int| 0 <= j < els.len() ==> is_var_term(#[trigger] els[j])
    &&& forall|j: int, m: int|
        0 <= j < els.len() && 0 <= m < els.len() && j != m ==> var_term_name(#[trigger] els[j])
            != var_term_name(#[trigger] els[m])
    &&& forall|j: int|
        0 <= j < els.len() ==> !vars_has(vars, false, var_term_name(#[trigger] els[j]))
}

/// The chain from its second node on (see `lemma_term_list_chain`): `c` is
/// the node before, whose second port continues the chain.
proof fn lemma_term_list_chain_from(s: SState, kind: CtrKind, c: nat, els: Seq<Term>, i: int)
    requires
        1 <= i < els.len(),
        c + 1 == s.cells.len(),
        s.cells[c as int] == SCell::Node(kind, SFill::Era, SFill::Era),
        fresh_var_terms(els.subrange(i, els.len() as int), s.vars),
    ensures
        ({
            let s1 = term_list(s, Seq::empty(), kind, SPlace::Hole(c, true), els, i);
            let m = els.len() - 1 - i;
            &&& s1.cells.len() == c + 1 + m
            &&& forall|x: int| 0 <= x < c ==> #[trigger] s1.cells[x] == s.cells[x]
            &&& s1.cells[c as int] == SCell::Node(
                kind,
                SFill::Era,
                if m > 0 {
                    SFill::Cell(c + 1)
                } else {
                    SFill::Era
                },
            )
            &&& forall|j: int|
                0 <= j < m ==> #[trigger] s1.cells[c + 1 + j] == SCell::Node(
                    kind,
                    SFill::Era,
                    if j + 1 < m {
                        SFill::Cell((c + 2 + j) as nat)
                    } else {
                        SFill::Era
                    },
                )
            &&& s1.vars == s.vars + Seq::new(
                (els.len() - i) as nat,
                |j: int|
                    (
                        false,
                        var_term_name(els[i + j]),
                        if j < m {
                            SPlace::Hole((c + 1 + j) as nat, false)
                        } else {
                            SPlace::Hole((c + m) as nat, true)
                        },
                    ),
            )
        }),
    decreases els.len() - i,
{
    let rest = els.subrange(i, els.len() as int);
    assert(rest[0] == els[i]);
    assert(is_var_term(rest[0]));
    let x = var_term_name(els[i]);
    assert(!vars_has(s.vars, false, x));
    let s1 = term_list(s, Seq::empty(), kind, SPlace::Hole(c, true), els, i);
    let m = els.len() - 1 - i;
    if i == els.len() - 1 {
        lemma_link_fresh_var(s, x, SPlace::Hole(c, true));
        assert(s1 == enc_term(s, Seq::empty(), els[i], SPlace::Hole(c, true)));
        lemma_enc_var_term(s, els[i], SPlace::Hole(c, true));
        assert(s1 == link_var(s, false, x, SPlace::Hole(c, true)));
        assert(s1.vars == s.vars.push((false, x, SPlace::Hole(c, true))));
        assert(s1.vars =~= s.vars + Seq::new(
            (els.len() - i) as nat,
            |j: int|
                (
                    false,
                    var_term_name(els[i + j]),
                    if j < m {
                        SPlace::Hole((c + 1 + j) as nat, false)
                    } else {
                        SPlace::Hole((c + m) as nat, true)
                    },
                ),
        ));
    } else {
        let (sa, n0, n1, n2) = new_ctr(s, kind);
        let sb = link_polar(sa, n0, SPlace::Hole(c, true), true);
        assert(sb == set_fill(sa, SPlace::Hole(c, true), SFill::Cell(c + 1)));
        assert(sb.cells =~= sa.cells.update(
            c as int,
            SCell::Node(kind, SFill::Era, SFill::Cell(c + 1)),
        ));
        let sc = enc_term(sb, Seq::empty(), els[i], n1);
        lemma_enc_var_term(sb, els[i], n1);
        lemma_link_fresh_var(sb, x, SPlace::Hole(c + 1, false));
        assert(sc.vars == s.vars.push((false, x, SPlace::Hole(c + 1, false))));
        let rest2 = els.subrange(i + 1, els.len() as int);
        assert forall|j: int| 0 <= j < rest2.len() implies is_var_term(#[trigger] rest2[j]) by {
            assert(rest2[j] == rest[j + 1]);
        }
        assert forall|j: int, q: int|
            0 <= j < rest2.len() && 0 <= q < rest2.len() && j != q implies var_term_name(
            #[trigger] rest2[j],
        ) != var_term_name(#[trigger] rest2[q]) by {
            assert(rest2[j] == rest[j + 1]);
            assert(rest2[q] == rest[q + 1]);
        }
        assert forall|j: int|
            0 <= j < rest2.len() implies !vars_has(sc.vars, false, var_term_name(#[trigger] rest2[j])) by {
            assert(rest2[j] == rest[j + 1]);
            assert(var_term_name(rest[j + 1]) != var_term_name(rest[0]));
            assert(!vars_has(s.vars, false, var_term_name(rest[j + 1])));
            if vars_has(sc.vars, false, var_term_name(rest2[j])) {
                let k = choose|k: int|
                    0 <= k < sc.vars.len() && #[trigger] sc.vars[k].0 == false && sc.vars[k].1
                        == var_term_name(rest2[j]);
                if k < s.vars.len() {
                    assert(sc.vars[k] == s.vars[k]);
                }
            }
        }
        lemma_term_list_chain_from(sc, kind, c + 1, els, i + 1);
        let tail = Seq::new(
            (els.len() - i - 1) as nat,
            |j: int|
                (
                    false,
                    var_term_name(els[i + 1 + j]),
                    if j < m - 1 {
                        SPlace::Hole((c + 2 + j) as nat, false)
                    } else {
                        SPlace::Hole((c + 1 + m - 1) as nat, true)
                    },
                ),
        );
        assert(s1.vars == sc.vars + tail);
        assert(s1.vars =~= s.vars + Seq::new(
            (els.len() - i) as nat,
            |j: int|
                (
                    false,
                    var_term_name(els[i + j]),
                    if j < m {
                        SPlace::Hole((c + 1 + j) as nat, false)
                    } else {
                        SPlace::Hole((c + m) as nat, true)
                    },
                ),
        ));
        assert forall|j: int|
            0 <= j < m implies #[trigger] s1.cells[c + 1 + j] == SCell::Node(
            kind,
            SFill::Era,
            if j + 1 < m {
                SFill::Cell((c + 2 + j) as nat)
            } else {
                SFill::Era
            },
        ) by {
            if j > 0 {
                assert(s1.cells[(c + 1) + 1 + (j - 1)] == s1.cells[c + 1 + j]);
            }
        }
    }
}

/// The chain of a term fan whose elements are distinct variables, none of
/// them waiting yet, encoded with no pending lets, with `c0` the first new cell: element `i` of all but
/// the last waits at the first port of node `c0 + i`, each node but the last
/// goes on through its second port into the next node, and the last element
/// waits at the second port of the last node; the nodes are of the fan's
/// kind, and their first ports stay empty until the variables are used.
pub proof fn lemma_term_list_chain(s: SState, kind: CtrKind, up: SPlace, els: Seq<Term>)
    requires
        els.len() >= 2,
        fresh_var_terms(els, s.vars),
        refs_below(up, s.cells.len()),
        wires_below(s, s.cells.len()),
    ensures
        ({
            let s1 = term_list(s, Seq::empty(), kind, up, els, 0);
            let c0 = s.cells.len();
            let k = els.len();
            &&& s1.cells.len() == c0 + k - 1
            &&& forall|j: int|
                0 <= j < k - 1 ==> #[trigger] s1.cells[c0 + j] == SCell::Node(
                    kind,
                    SFill::Era,
                    if j + 1 < k - 1 {
                        SFill::Cell((c0 + j + 1) as nat)
                    } else {
                        SFill::Era
                    },
                )
            &&& s1.vars == s.vars + Seq::new(
                k,
                |j: int|
                    (
                        false,
                        var_term_name(els[j]),
                        if j < k - 1 {
                            SPlace::Hole((c0 + j) as nat, false)
                        } else {
                            SPlace::Hole((c0 + k - 2) as nat, true)
                        },
                    ),
            )
        }),
{
    let c0 = s.cells.len();
    let k = els.len();
    let s1 = term_list(s, Seq::empty(), kind, up, els, 0);
    let x = var_term_name(els[0]);
    assert(is_var_term(els[0]));
    assert(!vars_has(s.vars, false, x));
    let (sa, n0, n1, n2) = new_ctr(s, kind);
    assert(wires_below(sa, c0));
    let sb = link(sa, n0, up);
    lemma_link_frame(sa, n0, up, c0);
    lemma_link_vars(sa, n0, up);
    assert(sb.cells[c0 as int] == SCell::Node(kind, SFill::Era, SFill::Era));
    let sc = enc_term(sb, Seq::empty(), els[0], n1);
    lemma_enc_var_term(sb, els[0], n1);
    lemma_link_fresh_var(sb, x, SPlace::Hole(c0, false));
    assert(sc.vars == s.vars.push((false, x, SPlace::Hole(c0, false))));
    let rest = els.subrange(1, els.len() as int);
    assert forall|j: int| 0 <= j < rest.len() implies is_var_term(#[trigger] rest[j]) by {
        assert(rest[j] == els[j + 1]);
    }
    assert forall|j: int, q: int|
        0 <= j < rest.len() && 0 <= q < rest.len() && j != q implies var_term_name(
        #[trigger] rest[j],
    ) != var_term_name(#[trigger] rest[q]) by {
        assert(rest[j] == els[j + 1]);
        assert(rest[q] == els[q + 1]);
    }
    assert forall|j: int|
        0 <= j < rest.len() implies !vars_has(sc.vars, false, var_term_name(#[trigger] rest[j])) by {
        assert(rest[j] == els[j + 1]);
        assert(var_term_name(els[j + 1]) != var_term_name(els[0]));
        assert(!vars_has(s.vars, false, var_term_name(els[j + 1])));
        if vars_has(sc.vars, false, var_term_name(rest[j])) {
            let q = choose|q: int|
                0 <= q < sc.vars.len() && #[trigger] sc.vars[q].0 == false && sc.vars[q].1
                    == var_term_name(rest[j]);
            if q < s.vars.len() {
                assert(sc.vars[q] == s.vars[q]);
            }
        }
    }
    lemma_term_list_chain_from(sc, kind, c0, els, 1);
    let m = k - 2;
    let tail = Seq::new(
        (k - 1) as nat,
        |j: int|
            (
                false,
                var_term_name(els[1 + j]),
                if j < m {
                    SPlace::Hole((c0 + 1 + j) as nat, false)
                } else {
                    SPlace::Hole((c0 + m) as nat, true)
                },
            ),
    );
    assert(s1.vars == sc.vars + tail);
    assert(s1.vars =~= s.vars + Seq::new(
        k,
        |j: int|
            (
                false,
                var_term_name(els[j]),
                if j < k - 1 {
                    SPlace::Hole((c0 + j) as nat, false)
                } else {
                    SPlace::Hole((c0 + k - 2) as nat, true)
                },
            ),
    ));
    assert forall|j: int|
        0 <= j < k - 1 implies #[trigger] s1.cells[c0 + j] == SCell::Node(
        kind,
        SFill::Era,
        if j + 1 < k - 1 {
            SFill::Cell((c0 + j + 1) as nat)
        } else {
            SFill::Era
        },
    ) by {
        if j > 0 {
            assert(s1.cells[c0 + 1 + (j - 1)] == s1.cells[c0 + j]);
        }
    }
}

// ===========================================================================
// What the encoding leaves in place
// ===========================================================================

/// A cell keeps its shape: a leaf stays the same leaf, a node keeps its
/// kind (its ports may be written).
pub open spec fn same_shape(a: SCell, b: SCell) -> bool {
    match a {
        SCell::Node(k, _, _) => b matches SCell::Node(k2, _, _) && k2 == k,
        _ => b == a,
    }
}

/// `s1` extends `s`: no cell is lost or changes shape, and the redexes of
/// `s` stay, in front.
pub open spec fn grows(s: SState, s1: SState) -> bool {
    &&& s.cells.len() <= s1.cells.len()
    &&& forall|c: int| 0 <= c < s.cells.len() ==> same_shape(s.cells[c], #[trigger] s1.cells[c])
    &&& s.redexes.len() <= s1.redexes.len()
    &&& forall|r: int| 0 <= r < s.redexes.len() ==> #[trigger] s1.redexes[r] == s.redexes[r]
}

proof fn lemma_grows_trans(a: SState, b: SState, c: SState)
    requires
        grows(a, b),
        grows(b, c),
    ensures
        grows(a, c),
{
    assert forall|i: int| 0 <= i < a.cells.len() implies same_shape(a.cells[i], #[trigger] c.cells[i]) by {
        assert(same_shape(a.cells[i], b.cells[i]));
        assert(same_shape(b.cells[i], c.cells[i]));
    }
    assert forall|r: int| 0 <= r < a.redexes.len() implies #[trigger] c.redexes[r] == a.redexes[r] by {
        assert(b.redexes[r] == a.redexes[r]);
        assert(c.redexes[r] == b.redexes[r]);
    }
}

proof fn lemma_grows_same(s: SState, s1: SState)
    requires
        s1.cells == s.cells,
        s1.redexes == s.redexes,
    ensures
        grows(s, s1),
{
    assert forall|i: int| 0 <= i < s.cells.len() implies same_shape(s.cells[i], #[trigger] s1.cells[i]) by {}
}

proof fn lemma_grow_set_fill(s: SState, hole: SPlace, f: SFill)
    ensures
        grows(s, set_fill(s, hole, f)),
        set_fill(s, hole, f).cells.len() == s.cells.len(),
{
    let s1 = set_fill(s, hole, f);
    assert forall|i: int| 0 <= i < s.cells.len() implies same_shape(s.cells[i], #[trigger] s1.cells[i]) by {}
}

proof fn lemma_grow_link(s: SState, pos: SPlace, neg: SPlace)
    ensures
        grows(s, link(s, pos, neg)),
    decreases count_some(s.wires),
{
    match (pos, neg) {
        (SPlace::Wire(w), _) => {
            if w < s.wires.len() {
                let s1 = SState { wires: s.wires.update(w as int, None), ..s };
                if let Some(p) = s.wires[w as int] {
                    lemma_count_some_take(s.wires, w as int);
                    lemma_grow_link(s1, p, neg);
                    lemma_grows_same(s, s1);
                    lemma_grows_trans(s, s1, link(s1, p, neg));
                } else {
                    lemma_grows_same(s, link(s, pos, neg));
                }
            } else {
                lemma_grows_same(s, s);
            }
        },
        (_, SPlace::Wire(w)) => {
            if w < s.wires.len() {
                let s1 = SState { wires: s.wires.update(w as int, None), ..s };
                if let Some(q) = s.wires[w as int] {
                    lemma_count_some_take(s.wires, w as int);
                    lemma_grow_link(s1, pos, q);
                    lemma_grows_same(s, s1);
                    lemma_grows_trans(s, s1, link(s1, pos, q));
                } else {
                    lemma_grows_same(s, link(s, pos, neg));
                }
            } else {
                lemma_grows_same(s, s);
            }
        },
        (SPlace::Tree(_), SPlace::Tree(_)) => {
            let s1 = link(s, pos, neg);
            assert forall|i: int| 0 <= i < s.cells.len() implies same_shape(
                s.cells[i],
                #[trigger] s1.cells[i],
            ) by {}
        },
        (SPlace::Tree(t), _) => {
            lemma_grow_set_fill(s, neg, SFill::Cell(t));
        },
        (_, SPlace::Tree(t)) => {
            lemma_grow_set_fill(s, pos, SFill::Cell(t));
        },
        (_, _) => {
            let s1 = set_fill(s, pos, SFill::Var(s.name_idx));
            let s2 = set_fill(s1, neg, SFill::Sub(s.name_idx));
            lemma_grow_set_fill(s, pos, SFill::Var(s.name_idx));
            lemma_grow_set_fill(s1, neg, SFill::Sub(s.name_idx));
            lemma_grows_trans(s, s1, s2);
            lemma_grows_same(s2, SState { name_idx: s.name_idx + 1, ..s2 });
            lemma_grows_trans(s, s2, SState { name_idx: s.name_idx + 1, ..s2 });
        },
    }
}

proof fn lemma_grow_link_var(s: SState, global: bool, name: Seq<char>, place: SPlace)
    ensures
        grows(s, link_var(s, global, name, place)),
{
    match find_var(s.vars, global, name, 0) {
        Some(i) => {
            if 0 <= i < s.vars.len() {
                let s1 = SState { vars: s.vars.remove(i), ..s };
                lemma_grows_same(s, s1);
                lemma_grow_link(s1, place, s.vars[i].2);
                lemma_grows_trans(s, s1, link(s1, place, s.vars[i].2));
            } else {
                lemma_grows_same(s, s);
            }
        },
        None => {
            lemma_grows_same(s, link_var(s, global, name, place));
        },
    }
}

proof fn lemma_grow_new(s: SState, cell: SCell, kind: CtrKind)
    ensures
        grows(s, new_leaf(s, cell).0),
        grows(s, new_ctr(s, kind).0),
        grows(s, new_wire(s).0),
{
    let a = new_leaf(s, cell).0;
    let b = new_ctr(s, kind).0;
    assert forall|i: int| 0 <= i < s.cells.len() implies same_shape(s.cells[i], #[trigger] a.cells[i]) by {}
    assert forall|i: int| 0 <= i < s.cells.len() implies same_shape(s.cells[i], #[trigger] b.cells[i]) by {}
    lemma_grows_same(s, new_wire(s).0);
}

/// Encoding a pattern only adds to the arena.
proof fn lemma_grow_pat(s: SState, p: Pattern, up: SPlace)
    ensures
        grows(s, enc_pat(s, p, up)),
    decreases p, 0int,
{
    match p {
        Pattern::Var(None) => {
            let (s1, t) = new_leaf(s, SCell::Del);
            lemma_grow_new(s, SCell::Del, CtrKind::Lam);
            lemma_grow_link(s1, up, t);
            lemma_grows_trans(s, s1, link(s1, up, t));
        },
        Pattern::Var(Some(name)) => {
            lemma_grow_link_var(s, false, name@, up);
        },
        Pattern::Chn(name) => {
            lemma_grow_link_var(s, true, name@, up);
        },
        Pattern::Fan(fan, _, els) => {
            lemma_grow_pat_list(s, spec_fan_kind(fan, false), up, els@, 0);
        },
        _ => {
            lemma_grows_same(s, s);
        },
    }
}

proof fn lemma_grow_pat_list(s: SState, kind: CtrKind, up: SPlace, els: Seq<Pattern>, i: int)
    ensures
        grows(s, pat_list(s, kind, up, els, i)),
    decreases els, els.len() - i,
{
    if i < 0 || i >= els.len() {
        lemma_grows_same(s, s);
    } else if i == els.len() - 1 {
        lemma_grow_pat(s, els[i], up);
    } else {
        let (s1, n0, n1, n2) = new_ctr(s, kind);
        lemma_grow_new(s, SCell::Era, kind);
        let s2 = link_polar(s1, n0, up, false);
        lemma_grow_link(s1, up, n0);
        let s3 = enc_pat(s2, els[i], n1);
        lemma_grow_pat(s2, els[i], n1);
        lemma_grow_pat_list(s3, kind, n2, els, i + 1);
        lemma_grows_trans(s, s1, s2);
        lemma_grows_trans(s, s2, s3);
        lemma_grows_trans(s, s3, pat_list(s3, kind, n2, els, i + 1));
        assert(pat_list(s, kind, up, els, i) == pat_list(s3, kind, n2, els, i + 1));
    }
}

/// Encoding a term, then the pending lets, only adds to the arena.
proof fn lemma_grow_term(s: SState, lets: Seq<(Pattern, Term)>, t: Term, up: SPlace)
    ensures
        grows(s, enc_term(s, lets, t, up)),
    decreases term_size(t) + lets_size(lets), 1int,
{
    match t {
        Term::Era => {
            let (s1, e) = new_leaf(s, SCell::Era);
            lemma_grow_new(s, SCell::Era, CtrKind::Lam);
            lemma_grow_link(s1, up, e);
            lemma_grow_drain(link(s1, up, e), lets);
            lemma_grows_trans(s, s1, link(s1, up, e));
            lemma_grows_trans(s, link(s1, up, e), drain(link(s1, up, e), lets));
        },
        Term::Var { nam } => {
            let s1 = link_var(s, false, nam@, up);
            lemma_grow_link_var(s, false, nam@, up);
            lemma_grow_drain(s1, lets);
            lemma_grows_trans(s, s1, drain(s1, lets));
        },
        Term::Link { nam } => {
            let s1 = link_var(s, true, nam@, up);
            lemma_grow_link_var(s, true, nam@, up);
            lemma_grow_drain(s1, lets);
            lemma_grows_trans(s, s1, drain(s1, lets));
        },
        Term::Ref { nam } => {
            let (s1, r) = new_leaf(s, SCell::Ref(nam@));
            lemma_grow_new(s, SCell::Ref(nam@), CtrKind::Lam);
            lemma_grow_link(s1, up, r);
            lemma_grow_drain(link(s1, up, r), lets);
            lemma_grows_trans(s, s1, link(s1, up, r));
            lemma_grows_trans(s, link(s1, up, r), drain(link(s1, up, r), lets));
        },
        Term::Lam { pat, bod, .. } => {
            let (s1, n0, n1, n2) = new_ctr(s, CtrKind::Lam);
            lemma_grow_new(s, SCell::Era, CtrKind::Lam);
            let s2 = link(s1, up, n0);
            lemma_grow_link(s1, up, n0);
            let s3 = enc_pat(s2, *pat, n1);
            lemma_grow_pat(s2, *pat, n1);
            lemma_grow_term(s3, lets, *bod, n2);
            lemma_grows_trans(s, s1, s2);
            lemma_grows_trans(s, s2, s3);
            lemma_grows_trans(s, s3, enc_term(s3, lets, *bod, n2));
        },
        Term::App { fun, arg, .. } => {
            let (s1, n0, n1, n2) = new_ctr(s, CtrKind::App);
            lemma_grow_new(s, SCell::Era, CtrKind::App);
            let s2 = enc_term(s1, lets, *fun, n0);
            lemma_grow_term(s1, lets, *fun, n0);
            let s3 = enc_term(s2, Seq::empty(), *arg, n1);
            assert(lets_size(Seq::<(Pattern, Term)>::empty()) == 0);
            lemma_grow_term(s2, Seq::empty(), *arg, n1);
            lemma_grow_link(s3, up, n2);
            lemma_grows_trans(s, s1, s2);
            lemma_grows_trans(s, s2, s3);
            lemma_grows_trans(s, s3, link(s3, up, n2));
        },
        Term::Let { pat, val, nxt } => {
            assert(lets.push((*pat, *val)).drop_last() =~= lets);
            lemma_grow_term(s, lets.push((*pat, *val)), *nxt, up);
        },
        Term::Fan { fan, els, .. } => {
            lemma_grow_term_list(s, lets, spec_fan_kind(fan, true), up, els@, 0);
        },
        _ => {
            lemma_grow_drain(s, lets);
        },
    }
}

proof fn lemma_grow_drain(s: SState, lets: Seq<(Pattern, Term)>)
    ensures
        grows(s, drain(s, lets)),
    decreases lets_size(lets), 0int,
{
    if lets.len() > 0 {
        let (pat, val) = lets.last();
        let (s1, w) = new_wire(s);
        lemma_grow_new(s, SCell::Era, CtrKind::Lam);
        let s2 = enc_pat(s1, pat, SPlace::Wire(w));
        lemma_grow_pat(s1, pat, SPlace::Wire(w));
        assert(lets_size(lets) == lets_size(lets.drop_last()) + pat_size(pat) + term_size(val));
        lemma_grow_term(s2, lets.drop_last(), val, SPlace::Wire(w));
        lemma_grows_trans(s, s1, s2);
        lemma_grows_trans(s, s2, enc_term(s2, lets.drop_last(), val, SPlace::Wire(w)));
    } else {
        lemma_grows_same(s, s);
    }
}

proof fn lemma_grow_term_list(
    s: SState,
    lets: Seq<(Pattern, Term)>,
    kind: CtrKind,
    up: SPlace,
    els: Seq<Term>,
    i: int,
)
    ensures
        grows(s, term_list(s, lets, kind, up, els, i)),
    decreases terms_size(els, i) + lets_size(lets), 2int,
{
    if i < 0 || i >= els.len() {
        lemma_grow_drain(s, lets);
    } else if i == els.len() - 1 {
        assert(terms_size(els, i) == term_size(els[i]) + terms_size(els, i + 1));
        lemma_grow_term(s, lets, els[i], up);
    } else {
        let (s1, n0, n1, n2) = new_ctr(s, kind);
        lemma_grow_new(s, SCell::Era, kind);
        let s2 = link_polar(s1, n0, up, true);
        lemma_grow_link(s1, n0, up);
        let s3 = enc_term(s2, lets, els[i], n1);
        assert(terms_size(els, i) == term_size(els[i]) + terms_size(els, i + 1));
        assert(lets_size(Seq::<(Pattern, Term)>::empty()) == 0);
        assert(term_size(els[i]) >= 1);
        lemma_grow_term(s2, lets, els[i], n1);
        lemma_grow_term_list(s3, Seq::empty(), kind, n2, els, i + 1);
        lemma_grows_trans(s, s1, s2);
        lemma_grows_trans(s, s2, s3);
        lemma_grows_trans(s, s3, term_list(s3, Seq::empty(), kind, n2, els, i + 1));
        assert(term_list(s, lets, kind, up, els, i) == term_list(
            s3,
            Seq::empty(),
            kind,
            n2,
            els,
            i + 1,
        ));
    }
}

/// Applying a reference: the reference meets the application node in the
/// first redex of the net, whatever the argument; the argument is read at
/// the node's first port, and the node's second port, the result of the
/// application, is wired to the root of the net.
pub proof fn lemma_apply_ref_net(tag: Tag, f: String, arg: Term)
    ensures
        ({
            let t = Term::App {
                tag: tag,
                fun: Box::new(Term::Ref { nam: f }),
                arg: Box::new(arg),
            };
            let net = read_net(encoded(t)).0;
            &&& net.rbag.len() >= 1
            &&& net.rbag[0].1 == TreeV::Ref(f@)
            &&& tree_kind(net.rbag[0].2) == Some(CtrKind::App)
            &&& net.root is Var
            &&& tree_snd(net.rbag[0].2) == TreeV::Sub(net.root->Var_0)
        }),
{
    let fun = Term::Ref { nam: f };
    let t = Term::App { tag: tag, fun: Box::new(fun), arg: Box::new(arg) };
    let s0 = initial_state();
    let (s1, n0, n1, n2) = new_ctr(s0, CtrKind::App);
    let (sa, r) = new_leaf(s1, SCell::Ref(f@));
    let sb = link(sa, n0, r);
    let s2 = enc_term(s1, Seq::empty(), fun, n0);
    assert(s2 == drain(sb, Seq::<(Pattern, Term)>::empty()));
    assert(s2 == sb);
    assert(s2.redexes == seq![(1nat, 0nat)]);
    assert(s2.cells == seq![SCell::Node(CtrKind::App, SFill::Era, SFill::Era), SCell::Ref(f@)]);
    let s3 = enc_term(s2, Seq::empty(), arg, n1);
    lemma_grow_term(s2, Seq::empty(), arg, n1);
    assert(same_shape(s2.cells[0], s3.cells[0]));
    assert(same_shape(s2.cells[1], s3.cells[1]));
    assert(s3.redexes[0] == (1nat, 0nat));
    let idx = s3.name_idx;
    let s4 = link(s3, SPlace::Root, n2);
    assert(encoded(t) == s4);
    if let SCell::Node(k, a, b) = s3.cells[0] {
        let s5 = set_fill(s3, SPlace::Root, SFill::Var(idx));
        assert(s5.cells == s3.cells);
        let s6 = set_fill(s5, SPlace::Hole(0, true), SFill::Sub(idx));
        assert(s6.cells == s3.cells.update(0, SCell::Node(k, a, SFill::Sub(idx))));
        assert(s4.cells == s6.cells);
        assert(s4.root == SFill::Var(idx));
        assert(s4.redexes == s3.redexes);
        let fuel = s4.cells.len();
        let v0 = no_visits(s4.cells.len());
        let (root, v1) = read_fill(s4, v0, s4.root, fuel);
        assert(root == TreeV::Var(spec_num_to_name(idx)));
        assert(v1 == v0);
        let (tn, w1) = read_cell(s4, v1, 1, fuel);
        assert(!v1[1]);
        assert(s4.cells[1] == SCell::Ref(f@));
        assert(tn == TreeV::Ref(f@));
        assert(w1 == v1.update(1, true));
        let (tp, w2) = read_cell(s4, w1, 0, fuel);
        assert(!w1[0]);
        let (ta, w3) = read_fill(s4, w1.update(0, true), a, (fuel - 1) as nat);
        let (tb, _) = read_fill(s4, w3, SFill::Sub(idx), (fuel - 1) as nat);
        assert(tb == TreeV::Sub(spec_num_to_name(idx)));
        assert(tp == node_of(CtrKind::App, ta, tb));
        lemma_node_of_ports(CtrKind::App, ta, tb);
        let (rest, _) = read_redexes(s4, w2, 1, fuel);
        assert(read_redexes(s4, v1, 0, fuel).0 == seq![(false, tn, tp)] + rest);
        assert(read_net(s4).0.rbag[0] == (false, tn, tp));
    }
}

// ---------------------------------------------------------------------------
// Ports that are no longer held are never written again

/// The root, or a port of an existing cell, that neither a recorded
/// variable nor a wire holds.
pub open spec fn unheld(s: SState, p: SPlace) -> bool {
    &&& (p is Root || (p matches SPlace::Hole(c, _) && c < s.cells.len()))
    &&& forall|i: int| 0 <= i < s.vars.len() ==> #[trigger] s.vars[i].2 != p
    &&& forall|w: int| 0 <= w < s.wires.len() ==> #[trigger] s.wires[w] != Some(p)
}

proof fn lemma_keep_set_fill(s: SState, hole: SPlace, f: SFill, p: SPlace)
    requires
        hole != p,
        unheld(s, p),
    ensures
        fill_at(set_fill(s, hole, f), p) == fill_at(s, p),
        unheld(set_fill(s, hole, f), p),
{
}

proof fn lemma_keep_link(s: SState, pos: SPlace, neg: SPlace, p: SPlace)
    requires
        pos != p,
        neg != p,
        unheld(s, p),
    ensures
        fill_at(link(s, pos, neg), p) == fill_at(s, p),
        unheld(link(s, pos, neg), p),
    decreases count_some(s.wires),
{
    lemma_link_vars(s, pos, neg);
    match (pos, neg) {
        (SPlace::Wire(w), _) => {
            if w < s.wires.len() {
                let s1 = SState { wires: s.wires.update(w as int, None), ..s };
                if let Some(q) = s.wires[w as int] {
                    lemma_count_some_take(s.wires, w as int);
                    assert(q != p);
                    lemma_keep_link(s1, q, neg, p);
                }
            }
        },
        (_, SPlace::Wire(w)) => {
            if w < s.wires.len() {
                let s1 = SState { wires: s.wires.update(w as int, None), ..s };
                if let Some(q) = s.wires[w as int] {
                    lemma_count_some_take(s.wires, w as int);
                    assert(q != p);
                    lemma_keep_link(s1, pos, q, p);
                }
            }
        },
        (SPlace::Tree(_), SPlace::Tree(_)) => {},
        (SPlace::Tree(t), _) => {
            lemma_keep_set_fill(s, neg, SFill::Cell(t), p);
        },
        (_, SPlace::Tree(t)) => {
            lemma_keep_set_fill(s, pos, SFill::Cell(t), p);
        },
        (_, _) => {
            let s1 = set_fill(s, pos, SFill::Var(s.name_idx));
            lemma_keep_set_fill(s, pos, SFill::Var(s.name_idx), p);
            lemma_keep_set_fill(s1, neg, SFill::Sub(s.name_idx), p);
        },
    }
}

proof fn lemma_keep_link_var(s: SState, global: bool, name: Seq<char>, place: SPlace, p: SPlace)
    requires
        place != p,
        unheld(s, p),
    ensures
        fill_at(link_var(s, global, name, place), p) == fill_at(s, p),
        unheld(link_var(s, global, name, place), p),
{
    match find_var(s.vars, global, name, 0) {
        Some(i) => {
            if 0 <= i < s.vars.len() {
                let s1 = SState { vars: s.vars.remove(i), ..s };
                assert(s.vars[i].2 != p);
                assert forall|j: int| 0 <= j < s1.vars.len() implies #[trigger] s1.vars[j].2 != p by {
                    if j < i {
                        assert(s1.vars[j] == s.vars[j]);
                    } else {
                        assert(s1.vars[j] == s.vars[j + 1]);
                    }
                }
                lemma_keep_link(s1, place, s.vars[i].2, p);
            }
        },
        None => {
            let s1 = link_var(s, global, name, place);
            assert forall|j: int| 0 <= j < s1.vars.len() implies #[trigger] s1.vars[j].2 != p by {
                if j < s.vars.len() {
                    assert(s1.vars[j] == s.vars[j]);
                }
            }
        },
    }
}

proof fn lemma_keep_new(s: SState, cell: SCell, kind: CtrKind, p: SPlace)
    requires
        unheld(s, p),
    ensures
        fill_at(new_leaf(s, cell).0, p) == fill_at(s, p),
        unheld(new_leaf(s, cell).0, p),
        new_leaf(s, cell).1 != p,
        fill_at(new_ctr(s, kind).0, p) == fill_at(s, p),
        unheld(new_ctr(s, kind).0, p),
        new_ctr(s, kind).1 != p,
        new_ctr(s, kind).2 != p,
        new_ctr(s, kind).3 != p,
        fill_at(new_wire(s).0, p) == fill_at(s, p),
        unheld(new_wire(s).0, p),
        SPlace::Wire(new_wire(s).1) != p,
{
    let sw = new_wire(s).0;
    assert forall|w: int| 0 <= w < sw.wires.len() implies #[trigger] sw.wires[w] != Some(p) by {
        if w < s.wires.len() {
            assert(sw.wires[w] == s.wires[w]);
        }
    }
}

/// Encoding a pattern never writes a port or root that nothing holds.
proof fn lemma_keep_pat(s: SState, pat: Pattern, up: SPlace, p: SPlace)
    requires
        up != p,
        unheld(s, p),
    ensures
        fill_at(enc_pat(s, pat, up), p) == fill_at(s, p),
        unheld(enc_pat(s, pat, up), p),
    decreases pat, 0int,
{
    match pat {
        Pattern::Var(None) => {
            let (s1, t) = new_leaf(s, SCell::Del);
            lemma_keep_new(s, SCell::Del, CtrKind::Lam, p);
            lemma_keep_link(s1, up, t, p);
        },
        Pattern::Var(Some(name)) => {
            lemma_keep_link_var(s, false, name@, up, p);
        },
        Pattern::Chn(name) => {
            lemma_keep_link_var(s, true, name@, up, p);
        },
        Pattern::Fan(fan, _, els) => {
            lemma_keep_pat_list(s, spec_fan_kind(fan, false), up, els@, 0, p);
        },
        _ => {},
    }
}

proof fn lemma_keep_pat_list(s: SState, kind: CtrKind, up: SPlace, els: Seq<Pattern>, i: int, p: SPlace)
    requires
        up != p,
        unheld(s, p),
    ensures
        fill_at(pat_list(s, kind, up, els, i), p) == fill_at(s, p),
        unheld(pat_list(s, kind, up, els, i), p),
    decreases els, els.len() - i,
{
    if i < 0 || i >= els.len() {
    } else if i == els.len() - 1 {
        lemma_keep_pat(s, els[i], up, p);
    } else {
        let (s1, n0, n1, n2) = new_ctr(s, kind);
        lemma_keep_new(s, SCell::Era, kind, p);
        let s2 = link_polar(s1, n0, up, false);
        lemma_keep_link(s1, up, n0, p);
        let s3 = enc_pat(s2, els[i], n1);
        lemma_keep_pat(s2, els[i], n1, p);
        lemma_keep_pat_list(s3, kind, n2, els, i + 1, p);
        assert(pat_list(s, kind, up, els, i) == pat_list(s3, kind, n2, els, i + 1));
    }
}

/// Encoding a term, then the pending lets, never writes a port or root that
/// nothing holds.
proof fn lemma_keep_term(s: SState, lets: Seq<(Pattern, Term)>, t: Term, up: SPlace, p: SPlace)
    requires
        up != p,
        unheld(s, p),
    ensures
        fill_at(enc_term(s, lets, t, up), p) == fill_at(s, p),
        unheld(enc_term(s, lets, t, up), p),
    decreases term_size(t) + lets_size(lets), 1int,
{
    match t {
        Term::Era => {
            let (s1, e) = new_leaf(s, SCell::Era);
            lemma_keep_new(s, SCell::Era, CtrKind::Lam, p);
            lemma_keep_link(s1, up, e, p);
            lemma_keep_drain(link(s1, up, e), lets, p);
        },
        Term::Var { nam } => {
            lemma_keep_link_var(s, false, nam@, up, p);
            lemma_keep_drain(link_var(s, false, nam@, up), lets, p);
        },
        Term::Link { nam } => {
            lemma_keep_link_var(s, true, nam@, up, p);
            lemma_keep_drain(link_var(s, true, nam@, up), lets, p);
        },
        Term::Ref { nam } => {
            let (s1, r) = new_leaf(s, SCell::Ref(nam@));
            lemma_keep_new(s, SCell::Ref(nam@), CtrKind::Lam, p);
            lemma_keep_link(s1, up, r, p);
            lemma_keep_drain(link(s1, up, r), lets, p);
        },
        Term::Lam { pat, bod, .. } => {
            let (s1, n0, n1, n2) = new_ctr(s, CtrKind::Lam);
            lemma_keep_new(s, SCell::Era, CtrKind::Lam, p);
            let s2 = link(s1, up, n0);
            lemma_keep_link(s1, up, n0, p);
            let s3 = enc_pat(s2, *pat, n1);
            lemma_keep_pat(s2, *pat, n1, p);
            lemma_keep_term(s3, lets, *bod, n2, p);
        },
        Term::App { fun, arg, .. } => {
            let (s1, n0, n1, n2) = new_ctr(s, CtrKind::App);
            lemma_keep_new(s, SCell::Era, CtrKind::App, p);
            let s2 = enc_term(s1, lets, *fun, n0);
            lemma_keep_term(s1, lets, *fun, n0, p);
            let s3 = enc_term(s2, Seq::empty(), *arg, n1);
            assert(lets_size(Seq::<(Pattern, Term)>::empty()) == 0);
            lemma_keep_term(s2, Seq::empty(), *arg, n1, p);
            lemma_keep_link(s3, up, n2, p);
        },
        Term::Let { pat, val, nxt } => {
            assert(lets.push((*pat, *val)).drop_last() =~= lets);
            lemma_keep_term(s, lets.push((*pat, *val)), *nxt, up, p);
        },
        Term::Fan { fan, els, .. } => {
            lemma_keep_term_list(s, lets, spec_fan_kind(fan, true), up, els@, 0, p);
        },
        _ => {
            lemma_keep_drain(s, lets, p);
        },
    }
}

proof fn lemma_keep_drain(s: SState, lets: Seq<(Pattern, Term)>, p: SPlace)
    requires
        unheld(s, p),
    ensures
        fill_at(drain(s, lets), p) == fill_at(s, p),
        unheld(drain(s, lets), p),
    decreases lets_size(lets), 0int,
{
    if lets.len() > 0 {
        let (pat, val) = lets.last();
        let (s1, w) = new_wire(s);
        lemma_keep_new(s, SCell::Era, CtrKind::Lam, p);
        let s2 = enc_pat(s1, pat, SPlace::Wire(w));
        lemma_keep_pat(s1, pat, SPlace::Wire(w), p);
        assert(lets_size(lets) == lets_size(lets.drop_last()) + pat_size(pat) + term_size(val));
        lemma_keep_term(s2, lets.drop_last(), val, SPlace::Wire(w), p);
    }
}

proof fn lemma_keep_term_list(
    s: SState,
    lets: Seq<(Pattern, Term)>,
    kind: CtrKind,
    up: SPlace,
    els: Seq<Term>,
    i: int,
    p: SPlace,
)
    requires
        up != p,
        unheld(s, p),
    ensures
        fill_at(term_list(s, lets, kind, up, els, i), p) == fill_at(s, p),
        unheld(term_list(s, lets, kind, up, els, i), p),
    decreases terms_size(els, i) + lets_size(lets), 2int,
{
    if i < 0 || i >= els.len() {
        lemma_keep_drain(s, lets, p);
    } else if i == els.len() - 1 {
        assert(terms_size(els, i) == term_size(els[i]) + terms_size(els, i + 1));
        lemma_keep_term(s, lets, els[i], up, p);
    } else {
        let (s1, n0, n1, n2) = new_ctr(s, kind);
        lemma_keep_new(s, SCell::Era, kind, p);
        let s2 = link_polar(s1, n0, up, true);
        lemma_keep_link(s1, n0, up, p);
        let s3 = enc_term(s2, lets, els[i], n1);
        assert(terms_size(els, i) == term_size(els[i]) + terms_size(els, i + 1));
        assert(lets_size(Seq::<(Pattern, Term)>::empty()) == 0);
        assert(term_size(els[i]) >= 1);
        lemma_keep_term(s2, lets, els[i], n1, p);
        lemma_keep_term_list(s3, Seq::empty(), kind, n2, els, i + 1, p);
        assert(term_list(s, lets, kind, up, els, i) == term_list(
            s3,
            Seq::empty(),
            kind,
            n2,
            els,
            i + 1,
        ));
    }
}

/// A lambda that discards its argument: the root of its net is the lambda
/// node, and the node's first port, the binder, holds an eraser, whatever
/// the body; the body is read at the second port.
pub proof fn lemma_discarding_lambda_net(tag: Tag, bod: Term)
    ensures
        ({
            let t = Term::Lam { tag: tag, pat: Box::new(Pattern::Var(None)), bod: Box::new(bod) };
            let net = read_net(encoded(t)).0;
            &&& tree_kind(net.root) == Some(CtrKind::Lam)
            &&& tree_fst(net.root) == TreeV::Del
        }),
{
    let t = Term::Lam { tag: tag, pat: Box::new(Pattern::Var(None)), bod: Box::new(bod) };
    let s0 = initial_state();
    let (s1, n0, n1, n2) = new_ctr(s0, CtrKind::Lam);
    let s2 = link(s1, SPlace::Root, n0);
    assert(s2.root == SFill::Cell(0));
    let s3 = enc_pat(s2, Pattern::Var(None), n1);
    let (sa, d) = new_leaf(s2, SCell::Del);
    assert(s3 == link(sa, n1, d));
    assert(s3.cells == seq![SCell::Node(CtrKind::Lam, SFill::Cell(1), SFill::Era), SCell::Del]);
    assert(s3.root == SFill::Cell(0));
    assert(s3.vars.len() == 0);
    assert(s3.wires.len() == 0);
    let s4 = enc_term(s3, Seq::empty(), bod, n2);
    assert(encoded(t) == s4);
    lemma_keep_term(s3, Seq::empty(), bod, n2, SPlace::Root);
    lemma_keep_term(s3, Seq::empty(), bod, n2, SPlace::Hole(0, false));
    lemma_grow_term(s3, Seq::empty(), bod, n2);
    assert(same_shape(s3.cells[0], s4.cells[0]));
    assert(same_shape(s3.cells[1], s4.cells[1]));
    assert(s4.root == SFill::Cell(0));
    if let SCell::Node(k, a, b) = s4.cells[0] {
        assert(a == SFill::Cell(1));
        let fuel = s4.cells.len();
        let v0 = no_visits(s4.cells.len());
        assert(!v0[0]);
        let v1 = v0.update(0, true);
        assert(!v1[1]);
        let (ta, v2) = read_fill(s4, v1, a, (fuel - 1) as nat);
        assert(ta == TreeV::Del);
        let (tb, _) = read_fill(s4, v2, b, (fuel - 1) as nat);
        let (root, _) = read_cell(s4, v0, 0, fuel);
        assert(root == node_of(CtrKind::Lam, ta, tb));
        lemma_node_of_ports(CtrKind::Lam, ta, tb);
    }
}

} // verus!
