//! The encoder: an arena of cells filled in as the term is walked.
use vstd::prelude::*;
use vstd::multiset::Multiset;
use crate::arena::{
    SCell, SFill, SPlace, SState, Weight, cell_ok, cells_ok, count_some, drain, enc_pat, enc_term,
    fill_ok, find_var, inv, is_hole, is_leaf, lemma_count_some_take, lemma_fill_names_inv,
    lemma_find_var_range, lemma_link_inv, lemma_link_var_inv, lemma_link_var_toggles,
    lemma_link_vars, lemma_new_ctr_inv, lemma_new_leaf_inv, lemma_new_wire_inv, lemma_odd_add,
    lemma_read_cell, lemma_read_fill, lemma_set_fill, lemma_var_take_inv, lemma_weight_bound,
    lemma_wire_slot_inv, lets_nodes, lets_occ, lets_size, link, link_var, new_ctr, new_leaf,
    new_wire, no_visits, node_kind, odd, pat_list, place_ok, read_cell, read_fill, read_net,
    read_redexes, redexes_ok, set_fill, spec_fan_kind, term_list, total, vars_has, vars_unique,
};
use crate::fun::{
    FanKind, Name, Pattern, Term, lemma_pats_encodable, lemma_terms_encodable, lemma_terms_size_ge,
    lets_encodable, pat_binds, pat_encodable, pat_nodes, pat_size, pats_binds, pats_encodable,
    pats_nodes, term_binds, term_encodable, term_nodes, term_occ, term_size, term_uses,
    terms_binds, terms_encodable, terms_nodes, terms_size, terms_uses,
};
use crate::hvm::{CtrKind, Net, Tree, is_node_kind, node_of, tree_fst, tree_kind, tree_snd};
use crate::names::num_to_name;

verus! {

/// A place of the arena (see `SPlace`).
#[derive(Clone, Copy)]
pub enum Place {
    Tree(usize),
    Hole(usize, bool),
    Root,
    Wire(usize),
}

impl View for Place {
    type V = SPlace;

    open spec fn view(&self) -> SPlace {
        match *self {
            Place::Tree(c) => SPlace::Tree(c as nat),
            Place::Hole(c, second) => SPlace::Hole(c as nat, second),
            Place::Root => SPlace::Root,
            Place::Wire(w) => SPlace::Wire(w as nat),
        }
    }
}

pub open spec fn opt_place_view(o: Option<Place>) -> Option<SPlace> {
    match o {
        Some(p) => Some(p@),
        None => None,
    }
}

/// What a port holds (see `SFill`).
#[derive(Clone, Copy)]
pub enum Fill {
    Era,
    Cell(usize),
    Var(u64),
    Sub(u64),
}

impl View for Fill {
    type V = SFill;

    open spec fn view(&self) -> SFill {
        match *self {
            Fill::Era => SFill::Era,
            Fill::Cell(c) => SFill::Cell(c as nat),
            Fill::Var(i) => SFill::Var(i as nat),
            Fill::Sub(i) => SFill::Sub(i as nat),
        }
    }
}

/// A tree of the arena (see `SCell`).
pub enum Cell {
    Era,
    Del,
    Ref(Name),
    Node(CtrKind, Fill, Fill),
}

impl View for Cell {
    type V = SCell;

    open spec fn view(&self) -> SCell {
        match *self {
            Cell::Era => SCell::Era,
            Cell::Del => SCell::Del,
            Cell::Ref(n) => SCell::Ref(n@),
            Cell::Node(k, a, b) => SCell::Node(k, a@, b@),
        }
    }
}

/// The encoder's state: the arena, the variables seen once, the wires
/// waiting for their second end, the redexes, and the pending lets.
pub struct EncodeTermState<'t> {
    pub lets: Vec<(&'t crate::fun::Pattern, &'t crate::fun::Term)>,
    pub vars: Vec<(bool, Name, Place)>,
    pub wires: Vec<Option<Place>>,
    pub cells: Vec<Cell>,
    pub root: Fill,
    pub redexes: Vec<(usize, usize)>,
    pub name_idx: u64,
    pub created_nodes: usize,
}

impl<'t> EncodeTermState<'t> {
    /// The arena as a mathematical value.
    pub open spec fn arena(&self) -> SState {
        SState {
            vars: self.vars@.map_values(|e: (bool, Name, Place)| (e.0, e.1@, e.2@)),
            wires: self.wires@.map_values(|o: Option<Place>| opt_place_view(o)),
            cells: self.cells@.map_values(|c: Cell| c@),
            root: self.root@,
            redexes: self.redexes@.map_values(|r: (usize, usize)| (r.0 as nat, r.1 as nat)),
            name_idx: self.name_idx as nat,
            created: self.created_nodes as nat,
        }
    }

    /// The pending lets, innermost last.
    pub open spec fn pending(&self) -> Seq<(crate::fun::Pattern, crate::fun::Term)> {
        self.lets@.map_values(
            |e: (&'t crate::fun::Pattern, &'t crate::fun::Term)| (*e.0, *e.1),
        )
    }

    /// Adds a leaf tree to the arena.
    fn new_leaf(&mut self, cell: Cell, Ghost(live): Ghost<Multiset<SPlace>>) -> (t: Place)
        requires
            inv(old(self).arena(), live),
            is_leaf(cell@),
        ensures
            (final(self).arena(), t@) == new_leaf(old(self).arena(), cell@),
            final(self).lets == old(self).lets,
            inv(final(self).arena(), live.insert(t@)),
    {
        proof {
            lemma_new_leaf_inv(self.arena(), live, cell@);
        }
        let ghost c = cell@;
        let ghost s0 = self.arena();
        let i = self.cells.len();
        self.cells.push(cell);
        assert(self.arena().cells =~= s0.cells.push(c));
        Place::Tree(i)
    }

    /// Adds a node of the given kind with two empty ports.
    fn new_ctr(&mut self, kind: CtrKind, Ghost(live): Ghost<Multiset<SPlace>>) -> (r: (
        Place,
        Place,
        Place,
    ))
        requires
            inv(old(self).arena(), live),
            node_kind(kind),
        ensures
            new_ctr(old(self).arena(), kind) == (final(self).arena(), r.0@, r.1@, r.2@),
            final(self).lets == old(self).lets,
            inv(final(self).arena(), live.insert(r.0@).insert(r.1@).insert(r.2@)),
    {
        proof {
            lemma_new_ctr_inv(self.arena(), live, kind);
        }
        let ghost s0 = self.arena();
        let i = self.cells.len();
        proof {
            assert forall|c: SCell| crate::arena::cell_weight(c, Weight::Node) <= 1 by {}
            lemma_weight_bound(s0.cells, Weight::Node, 1);
        }
        self.cells.push(Cell::Node(kind, Fill::Era, Fill::Era));
        assert(self.cells.len() == i + 1);
        self.created_nodes = self.created_nodes + 1;
        assert(self.arena().cells =~= s0.cells.push(SCell::Node(kind, SFill::Era, SFill::Era)));
        (Place::Tree(i), Place::Hole(i, false), Place::Hole(i, true))
    }

    /// Opens a wire; both of its ends are handed to the caller.
    fn new_wire(&mut self, Ghost(live): Ghost<Multiset<SPlace>>) -> (w: usize)
        requires
            inv(old(self).arena(), live),
        ensures
            new_wire(old(self).arena()) == (final(self).arena(), w as nat),
            final(self).lets == old(self).lets,
            inv(final(self).arena(), live.insert(SPlace::Wire(w as nat)).insert(SPlace::Wire(w as nat))),
    {
        proof {
            lemma_new_wire_inv(self.arena(), live);
        }
        let ghost s0 = self.arena();
        let i = self.wires.len();
        self.wires.push(None);
        assert(self.arena().wires =~= s0.wires.push(None));
        i
    }

    /// Writes `f` into a port or the root.
    fn set_fill(&mut self, hole: Place, f: Fill)
        requires
            place_ok(old(self).arena(), hole@),
            is_hole(hole@),
        ensures
            final(self).arena() == set_fill(old(self).arena(), hole@, f@),
            final(self).lets == old(self).lets,
    {
        let ghost s0 = self.arena();
        match hole {
            Place::Root => {
                self.root = f;
            },
            Place::Hole(c, second) => {
                let cur = match &self.cells[c] {
                    Cell::Node(k, a, b) => Some((*k, *a, *b)),
                    _ => None,
                };
                if let Some((k, a, b)) = cur {
                    let x = if second {
                        Cell::Node(k, a, f)
                    } else {
                        Cell::Node(k, f, b)
                    };
                    let ghost xv = x@;
                    self.cells.set(c, x);
                    assert(self.arena().cells =~= s0.cells.update(c as int, xv));
                }
            },
            _ => {},
        }
    }

    /// Connects a positive place to a negative one (see `link`).
    fn link(&mut self, pos: Place, neg: Place, Ghost(live): Ghost<Multiset<SPlace>>)
        requires
            inv(old(self).arena(), live),
            live.count(pos@) > 0,
            live.remove(pos@).count(neg@) > 0,
        ensures
            final(self).arena() == link(old(self).arena(), pos@, neg@),
            final(self).lets == old(self).lets,
            final(self).created_nodes == old(self).created_nodes,
            final(self).arena().vars == old(self).arena().vars,
            inv(final(self).arena(), live.remove(pos@).remove(neg@)),
        decreases count_some(old(self).arena().wires),
    {
        broadcast use vstd::multiset::group_multiset_axioms;

        let ghost s0 = self.arena();
        proof {
            lemma_link_inv(s0, live, pos@, neg@);
            lemma_link_vars(s0, pos@, neg@);
        }
        assert(place_ok(s0, pos@));
        assert(place_ok(s0, neg@));
        match (pos, neg) {
            (Place::Wire(w), _) => {
                let slot = self.wires[w];
                match slot {
                    Some(p) => {
                        proof {
                            lemma_count_some_take(s0.wires, w as int);
                            assert(s0.wires[w as int] matches Some(q) ==> place_ok(s0, q));
                            lemma_wire_slot_inv(s0, live, w as nat, None, live.remove(pos@).insert(p@));
                        }
                        self.wires.set(w, None);
                        assert(self.arena().wires =~= s0.wires.update(w as int, None));
                        assert(live.remove(pos@).insert(p@).remove(p@) =~= live.remove(pos@));
                        self.link(p, neg, Ghost(live.remove(pos@).insert(p@)));
                        assert(live.remove(pos@).insert(p@).remove(p@).remove(neg@) =~= live.remove(pos@).remove(neg@));
                    },
                    None => {
                        self.wires.set(w, Some(neg));
                        assert(self.arena().wires =~= s0.wires.update(w as int, Some(neg@)));
                    },
                }
            },
            (_, Place::Wire(w)) => {
                let slot = self.wires[w];
                match slot {
                    Some(n) => {
                        proof {
                            lemma_count_some_take(s0.wires, w as int);
                            assert(s0.wires[w as int] matches Some(q) ==> place_ok(s0, q));
                            lemma_wire_slot_inv(s0, live, w as nat, None, live.remove(neg@).insert(n@));
                        }
                        self.wires.set(w, None);
                        assert(self.arena().wires =~= s0.wires.update(w as int, None));
                        assert(live.remove(neg@).insert(n@).remove(pos@) =~= live.remove(pos@).remove(neg@).insert(n@));
                        self.link(pos, n, Ghost(live.remove(neg@).insert(n@)));
                        assert(live.remove(neg@).insert(n@).remove(pos@).remove(n@) =~= live.remove(pos@).remove(neg@));
                    },
                    None => {
                        self.wires.set(w, Some(pos));
                        assert(self.arena().wires =~= s0.wires.update(w as int, Some(pos@)));
                    },
                }
            },
            (Place::Tree(p), Place::Tree(n)) => {
                self.redexes.push((n, p));
                assert(self.arena().redexes =~= s0.redexes.push((n as nat, p as nat)));
            },
            (Place::Tree(t), _) => {
                self.set_fill(neg, Fill::Cell(t));
            },
            (_, Place::Tree(t)) => {
                self.set_fill(pos, Fill::Cell(t));
            },
            (_, _) => {
                let i = self.name_idx;
                proof {
                    lemma_fill_names_inv(s0, live, pos@, neg@);
                }
                self.set_fill(pos, Fill::Var(i));
                proof {
                    lemma_set_fill(s0, pos@, SFill::Var(i as nat));
                }
                self.set_fill(neg, Fill::Sub(i));
                proof {
                    let s2 = self.arena();
                    let s3 = SState { name_idx: (i + 1) as nat, ..s2 };
                    assert(total(s3, Weight::Named) == 2 * (i + 1));
                    assert forall|c: SCell| crate::arena::cell_weight(c, Weight::Named) <= 2 by {}
                    lemma_weight_bound(s2.cells, Weight::Named, 2);
                    assert(s2.cells.len() == self.cells.len());
                }
                self.name_idx = i + 1;
            },
        }
    }

    /// The first occurrence of a variable records its place; the second links
    /// its place to the recorded one (see `link_var`).
    fn link_var(&mut self, global: bool, name: &Name, place: Place, Ghost(live): Ghost<Multiset<SPlace>>)
        requires
            inv(old(self).arena(), live),
            live.count(place@) > 0,
            vars_unique(old(self).arena().vars),
        ensures
            vars_unique(final(self).arena().vars),
            forall|g: bool, n: Seq<char>|
                #[trigger] vars_has(final(self).arena().vars, g, n) == (vars_has(
                    old(self).arena().vars,
                    g,
                    n,
                ) != (g == global && n == name@)),
            final(self).arena() == link_var(old(self).arena(), global, name@, place@),
            final(self).lets == old(self).lets,
            final(self).created_nodes == old(self).created_nodes,
            inv(final(self).arena(), live.remove(place@)),
    {
        broadcast use vstd::multiset::group_multiset_axioms;

        let ghost s0 = self.arena();
        proof {
            lemma_link_var_toggles(s0, global, name@, place@);
            lemma_link_var_inv(s0, live, global, name@, place@);
            lemma_find_var_range(s0.vars, global, name@, 0);
        }
        let n = self.vars.len();
        let mut i: usize = 0;
        while i < n
            invariant
                self.arena() == s0,
                self.lets == old(self).lets,
                n == self.vars.len(),
                i <= n,
                find_var(s0.vars, global, name@, 0) == find_var(s0.vars, global, name@, i as int),
            ensures
                self.arena() == s0,
                self.lets == old(self).lets,
                n == self.vars.len(),
                i <= n,
                find_var(s0.vars, global, name@, 0) == find_var(s0.vars, global, name@, i as int),
                i < n ==> s0.vars[i as int].0 == global && s0.vars[i as int].1 == name@,
            decreases n - i,
        {
            if self.vars[i].0 == global && self.vars[i].1 == *name {
                break;
            }
            i = i + 1;
        }
        if i < n {
            assert(s0.vars[i as int].0 == global && s0.vars[i as int].1 == name@);
            assert(find_var(s0.vars, global, name@, i as int) == Some(i as int));
            let (_, _, other) = self.vars.remove(i);
            assert(other@ == s0.vars[i as int].2);
            proof {
                lemma_var_take_inv(s0, live, i as int);
            }
            assert(self.arena().vars =~= s0.vars.remove(i as int));
            assert(live.insert(other@).remove(place@).count(other@) > 0);
            self.link(place, other, Ghost(live.insert(other@)));
            assert(live.insert(other@).remove(place@).remove(other@) =~= live.remove(place@));
        } else {
            assert(find_var(s0.vars, global, name@, i as int) == None::<int>);
            self.vars.push((global, name.clone(), place));
            assert(self.arena().vars =~= s0.vars.push((global, name@, place@)));
        }
    }

    /// The node kind of a fan, by polarity.
    fn fan_kind(&self, fan: FanKind, positive: bool) -> (k: CtrKind)
        ensures
            k == spec_fan_kind(fan, positive),
    {
        match (fan, positive) {
            (FanKind::Tup, false) => CtrKind::Ltp,
            (FanKind::Tup, true) => CtrKind::Tup,
            (FanKind::Dup, false) => CtrKind::Dup,
            (FanKind::Dup, true) => CtrKind::Sup,
        }
    }

    /// Encodes a pattern into place `up` (see `enc_pat`).
    fn encode_pat(&mut self, pat: &'t Pattern, up: Place, Ghost(live): Ghost<Multiset<SPlace>>)
        requires
            inv(old(self).arena(), live),
            live.count(up@) > 0,
            pat_encodable(*pat),
            vars_unique(old(self).arena().vars),
        ensures
            vars_unique(final(self).arena().vars),
            forall|g: bool, n: Seq<char>|
                #[trigger] vars_has(final(self).arena().vars, g, n) == (vars_has(
                    old(self).arena().vars,
                    g,
                    n,
                ) != odd(pat_binds(*pat, g, n))),
            final(self).arena() == enc_pat(old(self).arena(), *pat, up@),
            final(self).lets == old(self).lets,
            final(self).created_nodes == old(self).created_nodes + pat_nodes(*pat),
            inv(final(self).arena(), live.remove(up@)),
        decreases *pat, 0int,
    {
        broadcast use vstd::multiset::group_multiset_axioms;

        match pat {
            Pattern::Var(None) => {
                let t = self.new_leaf(Cell::Del, Ghost(live));
                self.link(up, t, Ghost(live.insert(t@)));
                assert(live.insert(t@).remove(up@).remove(t@) =~= live.remove(up@));
            },
            Pattern::Var(Some(name)) => {
                self.link_var(false, name, up, Ghost(live));
            },
            Pattern::Chn(name) => {
                self.link_var(true, name, up, Ghost(live));
            },
            Pattern::Fan(fan, _tag, els) => {
                let kind = self.fan_kind(*fan, false);
                self.make_pat_list(kind, up, els, Ghost(live));
            },
            _ => {},
        }
    }

    /// A chain of nodes for the elements of a pattern fan (see `pat_list`).
    fn make_pat_list(
        &mut self,
        kind: CtrKind,
        up: Place,
        els: &'t Vec<Pattern>,
        Ghost(live): Ghost<Multiset<SPlace>>,
    )
        requires
            inv(old(self).arena(), live),
            live.count(up@) > 0,
            els.len() >= 1,
            els.len() >= 2 ==> node_kind(kind),
            pats_encodable(els@, 0),
            vars_unique(old(self).arena().vars),
        ensures
            vars_unique(final(self).arena().vars),
            forall|g: bool, n: Seq<char>|
                #[trigger] vars_has(final(self).arena().vars, g, n) == (vars_has(
                    old(self).arena().vars,
                    g,
                    n,
                ) != odd(pats_binds(els@, 0, g, n))),
            final(self).arena() == pat_list(old(self).arena(), kind, up@, els@, 0),
            final(self).lets == old(self).lets,
            final(self).created_nodes == old(self).created_nodes + (els.len() - 1) + pats_nodes(
                els@,
                0,
            ),
            inv(final(self).arena(), live.remove(up@)),
        decreases els@, els@.len() as int,
    {
        broadcast use vstd::multiset::group_multiset_axioms;

        let ghost s_init = self.arena();
        let ghost up0 = up;
        let mut up = up;
        let mut i: usize = 0;
        let ghost mut lv = live;
        while i + 1 < els.len()
            invariant
                0 <= i < els.len(),
                els.len() >= 2 ==> node_kind(kind),
                pats_encodable(els@, 0),
                pat_list(self.arena(), kind, up@, els@, i as int) == pat_list(
                    s_init,
                    kind,
                    up0@,
                    els@,
                    0,
                ),
                inv(self.arena(), lv),
                lv.count(up@) > 0,
                lv.remove(up@) == live.remove(up0@),
                self.lets == old(self).lets,
                self.created_nodes + pats_nodes(els@, i as int) == old(self).created_nodes + i
                    + pats_nodes(els@, 0),
                vars_unique(self.arena().vars),
                forall|g: bool, n: Seq<char>|
                    (#[trigger] vars_has(self.arena().vars, g, n) != odd(
                        pats_binds(els@, i as int, g, n),
                    )) == (vars_has(old(self).arena().vars, g, n) != odd(pats_binds(els@, 0, g, n))),
            decreases els.len() - i,
        {
            proof {
                lemma_pats_encodable(els@, 0, i as int);
            }
            let (n0, n1, n2) = self.new_ctr(kind, Ghost(lv));
            let ghost lv1 = lv.insert(n0@).insert(n1@).insert(n2@);
            self.link(up, n0, Ghost(lv1));
            let ghost lv2 = lv1.remove(up@).remove(n0@);
            let ghost vars_before = self.arena().vars;
            self.encode_pat(&els[i], n1, Ghost(lv2));
            proof {
                assert forall|g: bool, n: Seq<char>|
                    (#[trigger] vars_has(self.arena().vars, g, n) != odd(
                        pats_binds(els@, i + 1, g, n),
                    )) == (vars_has(old(self).arena().vars, g, n) != odd(pats_binds(els@, 0, g, n))) by {
                    lemma_odd_add(pat_binds(els@[i as int], g, n), pats_binds(els@, i + 1, g, n));
                    assert(vars_has(vars_before, g, n) == vars_has(self.arena().vars, g, n) != odd(pat_binds(els@[i as int], g, n)));
                }
                lv = lv2.remove(n1@);
                assert(lv.remove(n2@) =~= live.remove(up0@));
            }
            up = n2;
            i = i + 1;
        }
        proof {
            lemma_pats_encodable(els@, 0, i as int);
            assert(pats_nodes(els@, i + 1) == 0);
            assert(pats_nodes(els@, i as int) == pat_nodes(els@[i as int]) + pats_nodes(els@, i + 1));
        }
        let ghost vars_before = self.arena().vars;
        self.encode_pat(&els[i], up, Ghost(lv));
        proof {
            assert forall|g: bool, n: Seq<char>|
                #[trigger] vars_has(self.arena().vars, g, n) == (vars_has(
                    old(self).arena().vars,
                    g,
                    n,
                ) != odd(pats_binds(els@, 0, g, n))) by {
                assert(pats_binds(els@, i + 1, g, n) == 0);
                assert(pats_binds(els@, i as int, g, n) == pat_binds(els@[i as int], g, n));
                assert(vars_has(vars_before, g, n) == vars_has(self.arena().vars, g, n) != odd(pat_binds(els@[i as int], g, n)));
            }
        }
    }

    /// Encodes a term into place `up`, then the pending lets (see
    /// `enc_term`).
    #[verifier::rlimit(60)]
    #[verifier::spinoff_prover]
    pub(crate) fn encode_term(&mut self, term: &'t Term, up: Place, Ghost(live): Ghost<Multiset<SPlace>>)
        requires
            inv(old(self).arena(), live),
            live.count(up@) > 0,
            term_encodable(*term),
            lets_encodable(old(self).pending()),
            vars_unique(old(self).arena().vars),
        ensures
            vars_unique(final(self).arena().vars),
            forall|g: bool, n: Seq<char>|
                #[trigger] vars_has(final(self).arena().vars, g, n) == (vars_has(
                    old(self).arena().vars,
                    g,
                    n,
                ) != odd(term_occ(*term, g, n) + lets_occ(old(self).pending(), g, n))),
            final(self).arena() == enc_term(old(self).arena(), old(self).pending(), *term, up@),
            final(self).lets@.len() == 0,
            final(self).created_nodes == old(self).created_nodes + term_nodes(*term) + lets_nodes(
                old(self).pending(),
            ),
            inv(final(self).arena(), live.remove(up@)),
        decreases term_size(*term) + lets_size(old(self).pending()), 1int,
    {
        broadcast use vstd::multiset::group_multiset_axioms;

        let ghost s0 = self.arena();
        let ghost lets0 = self.pending();
        let ghost target = enc_term(s0, lets0, *term, up@);
        let ghost v0 = s0.vars;
        match term {
            Term::Era => {
                let e = self.new_leaf(Cell::Era, Ghost(live));
                self.link(up, e, Ghost(live.insert(e@)));
                assert(live.insert(e@).remove(up@).remove(e@) =~= live.remove(up@));
            },
            Term::Var { nam } => {
                self.link_var(false, nam, up, Ghost(live));
            },
            Term::Link { nam } => {
                self.link_var(true, nam, up, Ghost(live));
            },
            Term::Ref { nam } => {
                let r = self.new_leaf(Cell::Ref(nam.clone()), Ghost(live));
                self.link(up, r, Ghost(live.insert(r@)));
                assert(live.insert(r@).remove(up@).remove(r@) =~= live.remove(up@));
            },
            Term::Lam { tag: _, pat, bod } => {
                let (n0, n1, n2) = self.new_ctr(CtrKind::Lam, Ghost(live));
                let ghost lv1 = live.insert(n0@).insert(n1@).insert(n2@);
                self.link(up, n0, Ghost(lv1));
                let ghost lv2 = lv1.remove(up@).remove(n0@);
                self.encode_pat(pat, n1, Ghost(lv2));
                let ghost v2 = self.arena().vars;
                let ghost lv3 = lv2.remove(n1@);
                self.encode_term(bod, n2, Ghost(lv3));
                assert(lv3.remove(n2@) =~= live.remove(up@));
                assert forall|g: bool, n: Seq<char>|
                    #[trigger] vars_has(self.arena().vars, g, n) == (vars_has(v0, g, n) != odd(
                        term_occ(*term, g, n) + lets_occ(lets0, g, n),
                    )) by {
                    lemma_odd_add(pat_binds(**pat, g, n), term_occ(**bod, g, n) + lets_occ(lets0, g, n));
                    assert(vars_has(v2, g, n) == (vars_has(v0, g, n) != odd(pat_binds(**pat, g, n))));
                }
            },
            Term::App { tag: _, fun, arg } => {
                let (n0, n1, n2) = self.new_ctr(CtrKind::App, Ghost(live));
                let ghost lv1 = live.insert(n0@).insert(n1@).insert(n2@);
                self.encode_term(fun, n0, Ghost(lv1));
                let ghost v1 = self.arena().vars;
                let ghost lv2 = lv1.remove(n0@);
                assert(self.pending() =~= Seq::empty());
                self.encode_term(arg, n1, Ghost(lv2));
                assert forall|g: bool, n: Seq<char>|
                    #[trigger] vars_has(self.arena().vars, g, n) == (vars_has(v0, g, n) != odd(
                        term_occ(*term, g, n) + lets_occ(lets0, g, n),
                    )) by {
                    lemma_odd_add(term_occ(**fun, g, n) + lets_occ(lets0, g, n), term_occ(**arg, g, n));
                    assert(lets_occ(Seq::<(Pattern, Term)>::empty(), g, n) == 0);
                    assert(vars_has(v1, g, n) == (vars_has(v0, g, n) != odd(term_occ(**fun, g, n) + lets_occ(lets0, g, n))));
                }
                let ghost lv3 = lv2.remove(n1@);
                self.link(up, n2, Ghost(lv3));
                assert(lv3.remove(up@).remove(n2@) =~= live.remove(up@));
            },
            Term::Let { pat, val, nxt } => {
                self.lets.push((&**pat, &**val));
                assert(self.pending() =~= lets0.push((**pat, **val)));
                assert(lets0.push((**pat, **val)).drop_last() =~= lets0);
                self.encode_term(nxt, up, Ghost(live));
                assert forall|g: bool, n: Seq<char>|
                    #[trigger] vars_has(self.arena().vars, g, n) == (vars_has(v0, g, n) != odd(
                        term_occ(*term, g, n) + lets_occ(lets0, g, n),
                    )) by {
                    assert(lets_occ(lets0.push((**pat, **val)), g, n) == lets_occ(lets0, g, n) + pat_binds(**pat, g, n) + term_occ(**val, g, n));
                }
            },
            Term::Fan { fan, tag: _, els } => {
                let kind = self.fan_kind(*fan, true);
                self.make_term_list(kind, up, els, Ghost(live));
            },
            _ => {},
        }
        assert(self.pending().len() == 0 || self.pending() == lets0);
        assert(target == drain(self.arena(), self.pending()));
        assert forall|g: bool, n: Seq<char>|
            (#[trigger] vars_has(self.arena().vars, g, n) != odd(lets_occ(self.pending(), g, n)))
                == (vars_has(v0, g, n) != odd(term_occ(*term, g, n) + lets_occ(lets0, g, n))) by {
            lemma_odd_add(term_occ(*term, g, n), lets_occ(lets0, g, n));
            assert(lets_occ(Seq::<(Pattern, Term)>::empty(), g, n) == 0);
        }
        loop
            invariant
                target == drain(self.arena(), self.pending()),
                inv(self.arena(), live.remove(up@)),
                self.pending().len() == 0 || self.pending() == lets0,
                lets_encodable(lets0),
                lets0 == old(self).pending(),
                self.created_nodes + lets_nodes(self.pending()) == old(self).created_nodes
                    + term_nodes(*term) + lets_nodes(lets0),
                v0 == old(self).arena().vars,
                vars_unique(self.arena().vars),
                forall|g: bool, n: Seq<char>|
                    (#[trigger] vars_has(self.arena().vars, g, n) != odd(
                        lets_occ(self.pending(), g, n),
                    )) == (vars_has(v0, g, n) != odd(term_occ(*term, g, n) + lets_occ(lets0, g, n))),
            ensures
                self.lets@.len() == 0,
                vars_unique(self.arena().vars),
                forall|g: bool, n: Seq<char>|
                    #[trigger] vars_has(self.arena().vars, g, n) == (vars_has(v0, g, n) != odd(
                        term_occ(*term, g, n) + lets_occ(lets0, g, n),
                    )),
                self.created_nodes == old(self).created_nodes + term_nodes(*term) + lets_nodes(
                    lets0,
                ),
                target == self.arena(),
                inv(self.arena(), live.remove(up@)),
            decreases lets_size(self.pending()),
        {
            let ghost pend = self.pending();
            match self.lets.pop() {
                None => {
                    assert forall|g: bool, n: Seq<char>|
                        #[trigger] vars_has(self.arena().vars, g, n) == (vars_has(v0, g, n) != odd(
                            term_occ(*term, g, n) + lets_occ(lets0, g, n),
                        )) by {
                        assert(lets_occ(self.pending(), g, n) == 0);
                    }
                    break;
                },
                Some((pat, val)) => {
                    assert(self.pending() =~= pend.drop_last());
                    assert(pend.last() == (*pat, *val));
                    assert(lets_encodable(self.pending()));
                    assert(pend == lets0);
                    assert(lets_size(lets0) == lets_size(self.pending()) + pat_size(*pat) + term_size(
                        *val,
                    ));
                    assert(pat_size(*pat) >= 1);
                    let ghost lv = live.remove(up@);
                    let ghost va = self.arena().vars;
                    let w = self.new_wire(Ghost(lv));
                    let ghost lv1 = lv.insert(SPlace::Wire(w as nat)).insert(SPlace::Wire(w as nat));
                    self.encode_pat(pat, Place::Wire(w), Ghost(lv1));
                    let ghost vb = self.arena().vars;
                    let ghost rest = self.pending();
                    let ghost lv2 = lv1.remove(SPlace::Wire(w as nat));
                    self.encode_term(val, Place::Wire(w), Ghost(lv2));
                    assert(lv2.remove(SPlace::Wire(w as nat)) =~= lv);
                    assert(self.pending() =~= Seq::empty());
                    assert forall|g: bool, n: Seq<char>|
                        (#[trigger] vars_has(self.arena().vars, g, n) != odd(
                            lets_occ(self.pending(), g, n),
                        )) == (vars_has(v0, g, n) != odd(term_occ(*term, g, n) + lets_occ(lets0, g, n))) by {
                        assert(lets_occ(self.pending(), g, n) == 0);
                        assert(lets_occ(pend, g, n) == lets_occ(rest, g, n) + pat_binds(*pat, g, n) + term_occ(*val, g, n));
                        lemma_odd_add(pat_binds(*pat, g, n), term_occ(*val, g, n) + lets_occ(rest, g, n));
                        assert(vars_has(vb, g, n) == (vars_has(va, g, n) != odd(pat_binds(*pat, g, n))));
                    }
                },
            }
        }
    }

    /// A chain of nodes for the elements of a term fan (see `term_list`).
    fn make_term_list(
        &mut self,
        kind: CtrKind,
        up: Place,
        els: &'t Vec<Term>,
        Ghost(live): Ghost<Multiset<SPlace>>,
    )
        requires
            inv(old(self).arena(), live),
            live.count(up@) > 0,
            els.len() >= 1,
            els.len() >= 2 ==> node_kind(kind),
            terms_encodable(els@, 0),
            lets_encodable(old(self).pending()),
            vars_unique(old(self).arena().vars),
        ensures
            vars_unique(final(self).arena().vars),
            forall|g: bool, n: Seq<char>|
                #[trigger] vars_has(final(self).arena().vars, g, n) == (vars_has(
                    old(self).arena().vars,
                    g,
                    n,
                ) != odd(terms_binds(els@, 0, g, n) + terms_uses(els@, 0, g, n) + lets_occ(
                    old(self).pending(),
                    g,
                    n,
                ))),
            final(self).arena() == term_list(
                old(self).arena(),
                old(self).pending(),
                kind,
                up@,
                els@,
                0,
            ),
            final(self).lets@.len() == 0,
            inv(final(self).arena(), live.remove(up@)),
            final(self).created_nodes == old(self).created_nodes + (els.len() - 1) + terms_nodes(
                els@,
                0,
            ) + lets_nodes(old(self).pending()),
        decreases terms_size(els@, 0) + lets_size(old(self).pending()), 2int,
    {
        broadcast use vstd::multiset::group_multiset_axioms;

        let ghost s_init = self.arena();
        let ghost lets0 = self.pending();
        let ghost up0 = up;
        let mut up = up;
        let mut i: usize = 0;
        let ghost mut lv = live;
        while i + 1 < els.len()
            invariant
                0 <= i < els.len(),
                els.len() >= 2 ==> node_kind(kind),
                terms_encodable(els@, 0),
                term_list(self.arena(), self.pending(), kind, up@, els@, i as int) == term_list(
                    s_init,
                    lets0,
                    kind,
                    up0@,
                    els@,
                    0,
                ),
                self.pending().len() == 0 || self.pending() == lets0,
                lets_encodable(lets0),
                lets0 == old(self).pending(),
                i > 0 ==> self.pending().len() == 0,
                inv(self.arena(), lv),
                lv.count(up@) > 0,
                lv.remove(up@) == live.remove(up0@),
                self.created_nodes + terms_nodes(els@, i as int) + lets_nodes(self.pending())
                    == old(self).created_nodes + i + terms_nodes(els@, 0) + lets_nodes(lets0),
                vars_unique(self.arena().vars),
                forall|g: bool, n: Seq<char>|
                    (#[trigger] vars_has(self.arena().vars, g, n) != odd(
                        terms_binds(els@, i as int, g, n) + terms_uses(els@, i as int, g, n)
                            + lets_occ(self.pending(), g, n),
                    )) == (vars_has(old(self).arena().vars, g, n) != odd(
                        terms_binds(els@, 0, g, n) + terms_uses(els@, 0, g, n) + lets_occ(lets0, g, n),
                    )),
            decreases els.len() - i,
        {
            proof {
                lemma_terms_encodable(els@, 0, i as int);
                lemma_terms_size_ge(els@, 0, i as int);
            }
            assert(lets_size(self.pending()) <= lets_size(lets0));
            let (n0, n1, n2) = self.new_ctr(kind, Ghost(lv));
            let ghost lv1 = lv.insert(n0@).insert(n1@).insert(n2@);
            self.link(n0, up, Ghost(lv1));
            let ghost lv2 = lv1.remove(n0@).remove(up@);
            let ghost va = self.arena().vars;
            let ghost pend = self.pending();
            self.encode_term(&els[i], n1, Ghost(lv2));
            proof {
                assert forall|g: bool, n: Seq<char>|
                    (#[trigger] vars_has(self.arena().vars, g, n) != odd(
                        terms_binds(els@, i + 1, g, n) + terms_uses(els@, i + 1, g, n)
                            + lets_occ(Seq::<(Pattern, Term)>::empty(), g, n),
                    )) == (vars_has(old(self).arena().vars, g, n) != odd(
                        terms_binds(els@, 0, g, n) + terms_uses(els@, 0, g, n) + lets_occ(lets0, g, n),
                    )) by {
                    assert(lets_occ(Seq::<(Pattern, Term)>::empty(), g, n) == 0);
                    let e = els@[i as int];
                    assert(terms_binds(els@, i as int, g, n) == term_binds(e, g, n) + terms_binds(els@, i + 1, g, n));
                    assert(terms_uses(els@, i as int, g, n) == term_uses(e, g, n) + terms_uses(els@, i + 1, g, n));
                    lemma_odd_add(term_occ(e, g, n) + lets_occ(pend, g, n), terms_binds(els@, i + 1, g, n) + terms_uses(els@, i + 1, g, n));
                    assert(vars_has(self.arena().vars, g, n) == (vars_has(va, g, n) != odd(term_occ(e, g, n) + lets_occ(pend, g, n))));
                }
                lv = lv2.remove(n1@);
                assert(lv.remove(n2@) =~= live.remove(up0@));
                assert(self.pending() =~= Seq::empty());
            }
            up = n2;
            i = i + 1;
        }
        proof {
            lemma_terms_encodable(els@, 0, i as int);
            lemma_terms_size_ge(els@, 0, i as int);
        }
        assert(lets_size(self.pending()) <= lets_size(lets0));
        assert(terms_nodes(els@, i + 1) == 0);
        assert(terms_nodes(els@, i as int) == term_nodes(els@[i as int]) + terms_nodes(els@, i + 1));
        let ghost va = self.arena().vars;
        let ghost pend = self.pending();
        self.encode_term(&els[i], up, Ghost(lv));
        proof {
            assert forall|g: bool, n: Seq<char>|
                #[trigger] vars_has(self.arena().vars, g, n) == (vars_has(
                    old(self).arena().vars,
                    g,
                    n,
                ) != odd(terms_binds(els@, 0, g, n) + terms_uses(els@, 0, g, n) + lets_occ(
                    lets0,
                    g,
                    n,
                ))) by {
                let e = els@[i as int];
                assert(terms_binds(els@, i + 1, g, n) == 0);
                assert(terms_uses(els@, i + 1, g, n) == 0);
                assert(terms_binds(els@, i as int, g, n) == term_binds(e, g, n));
                assert(terms_uses(els@, i as int, g, n) == term_uses(e, g, n));
                assert(vars_has(self.arena().vars, g, n) == (vars_has(va, g, n) != odd(term_occ(e, g, n) + lets_occ(pend, g, n))));
            }
        }
    }

    /// Reads the tree a port holds (see `read_fill`).
    fn read_fill(&self, vis: &mut Vec<bool>, f: Fill, fuel: usize) -> (t: Tree)
        requires
            cells_ok(self.arena()),
            fill_ok(self.arena(), f@),
            old(vis)@.len() == self.arena().cells.len(),
        ensures
            (t@, final(vis)@) == read_fill(self.arena(), old(vis)@, f@, fuel as nat),
        decreases fuel, 1int,
    {
        match f {
            Fill::Era => Tree::Era,
            Fill::Var(i) => Tree::Var { nam: num_to_name(i) },
            Fill::Sub(i) => Tree::Sub { nam: num_to_name(i) },
            Fill::Cell(c) => self.read_cell(vis, c, fuel),
        }
    }

    /// Reads the tree of a cell (see `read_cell`).
    fn read_cell(&self, vis: &mut Vec<bool>, c: usize, fuel: usize) -> (t: Tree)
        requires
            cells_ok(self.arena()),
            old(vis)@.len() == self.arena().cells.len(),
        ensures
            (t@, final(vis)@) == read_cell(self.arena(), old(vis)@, c as nat, fuel as nat),
        decreases fuel, 0int,
    {
        let ghost s = self.arena();
        if fuel == 0 || c >= self.cells.len() || vis[c] {
            return Tree::Era;
        }
        vis.set(c, true);
        assert(cell_ok(s, s.cells[c as int]));
        match &self.cells[c] {
            Cell::Era => Tree::Era,
            Cell::Del => Tree::Del,
            Cell::Ref(n) => Tree::Ref { nam: n.clone() },
            Cell::Node(k, a, b) => {
                proof {
                    lemma_read_fill(s, vis@, a@, (fuel - 1) as nat);
                }
                let ta = self.read_fill(vis, *a, fuel - 1);
                let tb = self.read_fill(vis, *b, fuel - 1);
                node_tree(*k, ta, tb)
            },
        }
    }

    /// Reads the net out of the arena (see `read_net`).
    pub(crate) fn read_net(&self) -> (net: Net)
        requires
            cells_ok(self.arena()),
            fill_ok(self.arena(), self.arena().root),
            redexes_ok(self.arena()),
        ensures
            net@ == read_net(self.arena()).0,
    {
        let ghost s = self.arena();
        let n = self.cells.len();
        let mut vis: Vec<bool> = Vec::new();
        let mut j: usize = 0;
        while j < n
            invariant
                j <= n,
                n == self.cells.len(),
                vis@ == no_visits(j as nat),
            decreases n - j,
        {
            vis.push(false);
            j = j + 1;
            assert(vis@ =~= no_visits(j as nat));
        }
        let fuel = n;
        let root = self.read_fill(&mut vis, self.root, fuel);
        let ghost v1 = vis@;
        proof {
            lemma_read_fill(s, no_visits(s.cells.len()), s.root, fuel as nat);
        }
        let mut rbag: Vec<(bool, Tree, Tree)> = Vec::new();
        let mut i: usize = 0;
        let ghost total_rb = read_redexes(s, v1, 0, fuel as nat);
        while i < self.redexes.len()
            invariant
                i <= self.redexes.len(),
                s == self.arena(),
                cells_ok(s),
                redexes_ok(s),
                vis@.len() == s.cells.len(),
                ({
                    let (rest, vend) = read_redexes(s, vis@, i as int, fuel as nat);
                    (rbag@.map_values(|r: (bool, Tree, Tree)| (r.0, r.1@, r.2@)) + rest, vend)
                        == total_rb
                }),
            decreases self.redexes.len() - i,
        {
            let (neg, pos) = self.redexes[i];
            assert(s.redexes[i as int] == (neg as nat, pos as nat));
            let ghost v0 = vis@;
            proof {
                lemma_read_cell(s, v0, neg as nat, fuel as nat);
            }
            let tn = self.read_cell(&mut vis, neg, fuel);
            proof {
                lemma_read_cell(s, vis@, pos as nat, fuel as nat);
            }
            let tp = self.read_cell(&mut vis, pos, fuel);
            let ghost before = rbag@.map_values(|r: (bool, Tree, Tree)| (r.0, r.1@, r.2@));
            rbag.push((false, tn, tp));
            let ghost (rest, vend) = read_redexes(s, vis@, i + 1, fuel as nat);
            assert(rbag@.map_values(|r: (bool, Tree, Tree)| (r.0, r.1@, r.2@)) =~= before.push(
                (false, tn@, tp@),
            ));
            assert(before.push((false, tn@, tp@)) + rest =~= before + (seq![(false, tn@, tp@)] + rest));
            i = i + 1;
        }
        let net = Net { root, rbag };
        assert(net@.rbag =~= total_rb.0);
        net
    }
}

/// The binary node of a given kind over two subtrees.
fn node_tree(kind: CtrKind, fst: Tree, snd: Tree) -> (t: Tree)
    ensures
        t@ == node_of(kind, fst@, snd@),
        is_node_kind(kind) ==> tree_kind(t@) == Some(kind) && tree_fst(t@) == fst@ && tree_snd(
            t@,
        ) == snd@,
{
    match kind {
        CtrKind::Lam => Tree::Lam { fst: Box::new(fst), snd: Box::new(snd) },
        CtrKind::App => Tree::App { fst: Box::new(fst), snd: Box::new(snd) },
        CtrKind::Dup => Tree::Dup { fst: Box::new(fst), snd: Box::new(snd) },
        CtrKind::Sup => Tree::Sup { fst: Box::new(fst), snd: Box::new(snd) },
        _ => Tree::Era,
    }
}

} // verus!
