//! Compilation of terms and books into nets.
use vstd::prelude::*;
use vstd::multiset::Multiset;
use crate::arena::{
    SPlace, Weight, cell_weight, encoded, lemma_encoded_kinds, initial_state, inv, lemma_complete_net_names, lemma_initial_inv,
    lemma_read_net, lemma_vis_sum_from_none, lets_occ, read_net, spec_term_to_hvm, vars_has,
    vicious_msg,
};
use crate::encode::{EncodeTermState, Fill, Place};
use crate::diagnostics::Diagnostics;
use crate::fun::{
    Book, Definition, HvmDefinition, Name, Pattern, Rule, Term, spec_hvm_entrypoint, term_binds,
    term_encodable, term_kind_nodes, term_nodes, term_uses, vars_linear,
};
use crate::hvm::{
    CtrKind, Net, NetV, count_nodes, names_unique, net_kind_nodes, net_nodes, net_subs, net_vars, rbag_nodes, tree_nodes,
};
use crate::labels::{LabelGenerator, Labels};

verus! {

/// The error of an encoding in which a node ended up inside its own subtree.
#[derive(Debug, Clone, Copy)]
pub struct ViciousCycleErr;

/// The mathematical value of a compilation result.
pub open spec fn result_view(r: Result<Net, String>) -> Result<NetV, Seq<char>> {
    match r {
        Ok(n) => Ok(n@),
        Err(e) => Err(e@),
    }
}

/// Counts the binary nodes of all the trees of a net.
fn found_nodes(net: &Net) -> (n: usize)
    requires
        net_nodes(net@) <= usize::MAX,
    ensures
        n == net_nodes(net@),
{
    let ghost rb = net@.rbag;
    let mut total = count_nodes(&net.root);
    let mut i: usize = 0;
    assert(rb.skip(0) =~= rb);
    while i < net.rbag.len()
        invariant
            i <= net.rbag.len(),
            rb == net@.rbag,
            rb.len() == net.rbag.len(),
            total + rbag_nodes(rb.skip(i as int)) == net_nodes(net@),
            net_nodes(net@) <= usize::MAX,
        decreases net.rbag.len() - i,
    {
        let r = &net.rbag[i];
        assert(rb[i as int] == (r.0, r.1@, r.2@));
        assert(rb.skip(i as int).drop_first() =~= rb.skip(i + 1));
        assert(rbag_nodes(rb.skip(i as int)) == tree_nodes(r.1@) + tree_nodes(r.2@) + rbag_nodes(
            rb.skip(i + 1),
        ));
        let a = count_nodes(&r.1);
        let b = count_nodes(&r.2);
        total = total + a + b;
        i = i + 1;
    }
    assert(rb.skip(i as int) =~= Seq::empty());
    total
}

/// Converts a lambda-calculus term into an interaction net.
///
/// The term is encoded node by node: lambdas and applications become
/// binary nodes, fans become chains of nodes, lets connect their pattern to
/// their value through a wire, and each variable's binder is joined to its
/// use. The encoding is refused when the net holds fewer nodes than were
/// created: a vicious cycle placed some node inside its own subtree.
///
/// Expects a term that earlier passes have reduced to the encodable forms,
/// with linear variables.
///
/// The result is exactly `spec_term_to_hvm`. Moreover: a compiled net holds
/// exactly `term_nodes(term)` nodes, and of each kind exactly
/// `term_kind_nodes(term, kind)` (so a duplicating pattern becomes `Dup`
/// nodes and a superposing term `Sup` nodes); in it every wire name occurs once as
/// `Var` and once as `Sub`, or not at all; and the encoding links the two
/// occurrences of every variable, leaving none waiting.
pub fn term_to_hvm(term: &Term, _labels: &mut Labels) -> (res: Result<Net, String>)
    requires
        term_encodable(*term),
        vars_linear(*term),
    ensures
        result_view(res) == spec_term_to_hvm(*term),
        res matches Ok(net) ==> net_nodes(net@) == term_nodes(*term),
        res matches Ok(net) ==> forall|k: CtrKind|
            #[trigger] net_kind_nodes(net@, k) == term_kind_nodes(*term, k),
        res matches Ok(net) ==> forall|name: Seq<char>|
            #[trigger] net_vars(net@, name) == net_subs(net@, name) && net_vars(net@, name) <= 1,
        res matches Err(e) ==> e@ == vicious_msg(),
        encoded(*term).vars.len() == 0,
        *final(_labels) == *old(_labels),
{
    let mut state = EncodeTermState {
        lets: Vec::new(),
        vars: Vec::new(),
        wires: Vec::new(),
        cells: Vec::new(),
        root: Fill::Era,
        redexes: Vec::new(),
        name_idx: 0,
        created_nodes: 0,
    };
    let ghost live = Multiset::<SPlace>::empty().insert(SPlace::Root);
    proof {
        lemma_initial_inv();
        let a = state.arena();
        assert(a.vars =~= initial_state().vars);
        assert(a.wires =~= initial_state().wires);
        assert(a.cells =~= initial_state().cells);
        assert(a.redexes =~= initial_state().redexes);
        assert(a == initial_state());
        assert(state.pending() =~= Seq::empty());
    }
    proof {
        assert(state.arena().vars =~= Seq::empty());
    }
    state.encode_term(term, Place::Root, Ghost(live));
    let ghost s = state.arena();
    assert(s == encoded(*term));
    proof {
        if s.vars.len() > 0 {
            let (g, n, _) = s.vars[0];
            assert(vars_has(s.vars, g, n));
            assert(lets_occ(Seq::<(Pattern, Term)>::empty(), g, n) == 0);
            assert(term_binds(*term, g, n) <= 1 && term_uses(*term, g, n) == term_binds(*term, g, n));
            assert(!vars_has(Seq::<(bool, Seq<char>, SPlace)>::empty(), g, n));
            assert(false);
        }
    }
    assert(inv(s, live.remove(SPlace::Root)));
    proof {
        crate::arena::lemma_inv_cells_ok(s, live.remove(SPlace::Root));
        lemma_read_net(s);
        lemma_vis_sum_from_none(s.cells, read_net(s).1, Weight::Node);
    }
    let net = state.read_net();
    let found = found_nodes(&net);
    if state.created_nodes != found {
        return Err(String::from_str("Found term that compiles into an inet with a vicious cycle"));
    }
    proof {
        lemma_complete_net_names(s, live.remove(SPlace::Root));
        let v = read_net(s).1;
        assert forall|k: CtrKind| #[trigger] net_kind_nodes(net@, k) == term_kind_nodes(*term, k) by {
            lemma_vis_sum_from_none(s.cells, v, Weight::Kind(k));
            assert forall|i: int|
                0 <= i < s.cells.len() && cell_weight(s.cells[i], Weight::Kind(k)) > 0 implies #[trigger] v[i] by {
                assert(cell_weight(s.cells[i], Weight::Node) > 0);
            }
            lemma_encoded_kinds(*term, k);
        }
    }
    Ok(net)
}

/// What compiling a book has gathered so far: the nets by name, and the
/// errors as (message, definition) pairs.
pub struct Gathered {
    pub map: Map<Seq<char>, NetV>,
    pub errors: Seq<(Seq<char>, Seq<char>)>,
}

/// The name a definition's net gets: the entry point is renamed as
/// `spec_hvm_entrypoint` says, the others keep their names.
pub open spec fn def_net_name(book: Book, def: Definition) -> Seq<char> {
    if book.entrypoint matches Some(m) && m@ == def.name@ {
        spec_hvm_entrypoint(book.entrypoint)
    } else {
        def.name@
    }
}

/// Compiles the rules `rules[j..]` of a definition: each successful net is
/// stored under the definition's name (a later rule replacing an earlier
/// one), each failure is recorded as an error of the definition.
pub open spec fn compile_rules(acc: Gathered, name: Seq<char>, rules: Seq<Rule>, j: int) -> Gathered
    decreases rules.len() - j,
{
    if j < 0 || j >= rules.len() {
        acc
    } else {
        let acc1 = match spec_term_to_hvm(rules[j].body) {
            Ok(net) => Gathered { map: acc.map.insert(name, net), ..acc },
            Err(e) => Gathered { errors: acc.errors.push((e, name)), ..acc },
        };
        compile_rules(acc1, name, rules, j + 1)
    }
}

/// Compiling rules keeps the errors gathered before, in front of the new
/// ones.
pub proof fn lemma_compile_rules_keeps(acc: Gathered, name: Seq<char>, rules: Seq<Rule>, j: int)
    ensures
        acc.errors.is_prefix_of(compile_rules(acc, name, rules, j).errors),
    decreases rules.len() - j,
{
    if 0 <= j < rules.len() {
        let acc1 = match spec_term_to_hvm(rules[j].body) {
            Ok(net) => Gathered { map: acc.map.insert(name, net), ..acc },
            Err(e) => Gathered { errors: acc.errors.push((e, name)), ..acc },
        };
        lemma_compile_rules_keeps(acc1, name, rules, j + 1);
        assert(acc.errors.is_prefix_of(acc1.errors));
    }
}

/// Every rule whose body fails to compile leaves its error, with the
/// definition's name, among the gathered errors, whatever the other rules
/// of the definition are.
pub proof fn lemma_compile_rules_errors(
    acc: Gathered,
    name: Seq<char>,
    rules: Seq<Rule>,
    j: int,
    r: int,
)
    requires
        0 <= j <= r < rules.len(),
        spec_term_to_hvm(rules[r].body) is Err,
    ensures
        compile_rules(acc, name, rules, j).errors.contains(
            (spec_term_to_hvm(rules[r].body)->Err_0, name),
        ),
    decreases rules.len() - j,
{
    let acc1 = match spec_term_to_hvm(rules[j].body) {
        Ok(net) => Gathered { map: acc.map.insert(name, net), ..acc },
        Err(e) => Gathered { errors: acc.errors.push((e, name)), ..acc },
    };
    if j < r {
        lemma_compile_rules_errors(acc1, name, rules, j + 1, r);
    } else {
        let x = (spec_term_to_hvm(rules[r].body)->Err_0, name);
        assert(acc1.errors.last() == x);
        lemma_compile_rules_keeps(acc1, name, rules, j + 1);
        let out = compile_rules(acc1, name, rules, j + 1).errors;
        assert(out[acc1.errors.len() - 1] == x);
    }
}

/// Compiling the rules of a definition changes the net of its name only.
pub proof fn lemma_compile_rules_other_names(
    acc: Gathered,
    name: Seq<char>,
    rules: Seq<Rule>,
    j: int,
    key: Seq<char>,
)
    requires
        key != name,
    ensures
        compile_rules(acc, name, rules, j).map.contains_key(key) == acc.map.contains_key(key),
        acc.map.contains_key(key) ==> compile_rules(acc, name, rules, j).map[key] == acc.map[key],
    decreases rules.len() - j,
{
    if 0 <= j < rules.len() {
        let acc1 = match spec_term_to_hvm(rules[j].body) {
            Ok(net) => Gathered { map: acc.map.insert(name, net), ..acc },
            Err(e) => Gathered { errors: acc.errors.push((e, name)), ..acc },
        };
        lemma_compile_rules_other_names(acc1, name, rules, j + 1, key);
    }
}

/// Once a rule of a definition compiles, its name has a net.
pub proof fn lemma_compile_rules_has_net(acc: Gathered, name: Seq<char>, rules: Seq<Rule>, j: int)
    requires
        0 <= j,
        acc.map.contains_key(name) || exists|r: int|
            j <= r < rules.len() && #[trigger] spec_term_to_hvm(rules[r].body) is Ok,
    ensures
        compile_rules(acc, name, rules, j).map.contains_key(name),
    decreases rules.len() - j,
{
    if 0 <= j < rules.len() {
        let acc1 = match spec_term_to_hvm(rules[j].body) {
            Ok(net) => Gathered { map: acc.map.insert(name, net), ..acc },
            Err(e) => Gathered { errors: acc.errors.push((e, name)), ..acc },
        };
        if !acc.map.contains_key(name) {
            let r = choose|r: int|
                j <= r < rules.len() && #[trigger] spec_term_to_hvm(rules[r].body) is Ok;
            if r == j {
                assert(acc1.map.contains_key(name));
            }
        }
        lemma_compile_rules_has_net(acc1, name, rules, j + 1);
    }
}

/// The net of a definition is that of its last rule that compiles: a later
/// rule replaces an earlier one, and a failing rule replaces nothing.
pub proof fn lemma_compile_rules_last_net(
    acc: Gathered,
    name: Seq<char>,
    rules: Seq<Rule>,
    j: int,
    r: int,
)
    requires
        0 <= j <= r < rules.len(),
        spec_term_to_hvm(rules[r].body) is Ok,
        forall|q: int| r < q < rules.len() ==> #[trigger] spec_term_to_hvm(rules[q].body) is Err,
    ensures
        compile_rules(acc, name, rules, j).map.contains_key(name),
        compile_rules(acc, name, rules, j).map[name] == spec_term_to_hvm(rules[r].body)->Ok_0,
    decreases rules.len() - j,
{
    let acc1 = match spec_term_to_hvm(rules[j].body) {
        Ok(net) => Gathered { map: acc.map.insert(name, net), ..acc },
        Err(e) => Gathered { errors: acc.errors.push((e, name)), ..acc },
    };
    if j < r {
        lemma_compile_rules_last_net(acc1, name, rules, j + 1, r);
    } else {
        lemma_compile_rules_failing(acc1, name, rules, j + 1);
    }
}

/// Rules that all fail leave the nets alone.
pub proof fn lemma_compile_rules_failing(acc: Gathered, name: Seq<char>, rules: Seq<Rule>, j: int)
    requires
        forall|q: int| j <= q < rules.len() ==> #[trigger] spec_term_to_hvm(rules[q].body) is Err,
    ensures
        compile_rules(acc, name, rules, j).map == acc.map,
    decreases rules.len() - j,
{
    if 0 <= j < rules.len() {
        let acc1 = match spec_term_to_hvm(rules[j].body) {
            Ok(net) => Gathered { map: acc.map.insert(name, net), ..acc },
            Err(e) => Gathered { errors: acc.errors.push((e, name)), ..acc },
        };
        assert(spec_term_to_hvm(rules[j].body) is Err);
        lemma_compile_rules_failing(acc1, name, rules, j + 1);
    }
}

/// Compiles the definitions `book.defs[i..]`.
pub open spec fn compile_defs(acc: Gathered, book: Book, i: int) -> Gathered
    decreases book.defs.len() - i,
{
    if i < 0 || i >= book.defs.len() {
        acc
    } else {
        let def = book.defs[i];
        compile_defs(compile_rules(acc, def_net_name(book, def), def.rules@, 0), book, i + 1)
    }
}

/// Compiling definitions keeps the errors gathered before, in front of the
/// new ones.
pub proof fn lemma_compile_defs_keeps(acc: Gathered, book: Book, i: int)
    ensures
        acc.errors.is_prefix_of(compile_defs(acc, book, i).errors),
    decreases book.defs.len() - i,
{
    if 0 <= i < book.defs.len() {
        let def = book.defs[i];
        let acc1 = compile_rules(acc, def_net_name(book, def), def.rules@, 0);
        lemma_compile_rules_keeps(acc, def_net_name(book, def), def.rules@, 0);
        lemma_compile_defs_keeps(acc1, book, i + 1);
    }
}

/// Every rule of every definition whose body fails to compile leaves its
/// error, with the name of its definition, among the gathered errors,
/// whatever the other rules and definitions are.
pub proof fn lemma_compile_defs_errors(acc: Gathered, book: Book, i: int, d: int, r: int)
    requires
        0 <= i <= d < book.defs.len(),
        0 <= r < book.defs[d].rules.len(),
        spec_term_to_hvm(book.defs[d].rules@[r].body) is Err,
    ensures
        compile_defs(acc, book, i).errors.contains(
            (
                spec_term_to_hvm(book.defs[d].rules@[r].body)->Err_0,
                def_net_name(book, book.defs[d]),
            ),
        ),
    decreases book.defs.len() - i,
{
    let def = book.defs[i];
    let acc1 = compile_rules(acc, def_net_name(book, def), def.rules@, 0);
    if i < d {
        lemma_compile_defs_errors(acc1, book, i + 1, d, r);
    } else {
        let x = (
            spec_term_to_hvm(book.defs[d].rules@[r].body)->Err_0,
            def_net_name(book, book.defs[d]),
        );
        lemma_compile_rules_errors(acc, def_net_name(book, def), def.rules@, 0, r);
        lemma_compile_defs_keeps(acc1, book, i + 1);
        let k = choose|k: int| 0 <= k < acc1.errors.len() && acc1.errors[k] == x;
        assert(compile_defs(acc1, book, i + 1).errors[k] == x);
    }
}

/// Compiling the definitions `book.defs[i..]` leaves the nets of other
/// names alone.
pub proof fn lemma_compile_defs_other_names(acc: Gathered, book: Book, i: int, key: Seq<char>)
    requires
        forall|d: int| i <= d < book.defs.len() ==> def_net_name(book, #[trigger] book.defs[d]) != key,
    ensures
        compile_defs(acc, book, i).map.contains_key(key) == acc.map.contains_key(key),
        acc.map.contains_key(key) ==> compile_defs(acc, book, i).map[key] == acc.map[key],
    decreases book.defs.len() - i,
{
    if 0 <= i < book.defs.len() {
        let def = book.defs[i];
        let acc1 = compile_rules(acc, def_net_name(book, def), def.rules@, 0);
        lemma_compile_rules_other_names(acc, def_net_name(book, def), def.rules@, 0, key);
        lemma_compile_defs_other_names(acc1, book, i + 1, key);
    }
}

/// A name that has a net keeps one while further definitions are compiled.
pub proof fn lemma_compile_defs_keeps_names(acc: Gathered, book: Book, i: int, key: Seq<char>)
    requires
        acc.map.contains_key(key),
    ensures
        compile_defs(acc, book, i).map.contains_key(key),
    decreases book.defs.len() - i,
{
    if 0 <= i < book.defs.len() {
        let def = book.defs[i];
        let nm = def_net_name(book, def);
        let acc1 = compile_rules(acc, nm, def.rules@, 0);
        if key == nm {
            lemma_compile_rules_has_net(acc, nm, def.rules@, 0);
        } else {
            lemma_compile_rules_other_names(acc, nm, def.rules@, 0, key);
        }
        lemma_compile_defs_keeps_names(acc1, book, i + 1, key);
    }
}

/// Every definition with a rule that compiles gets a net under its name.
pub proof fn lemma_compile_defs_has_net(acc: Gathered, book: Book, i: int, d: int, r: int)
    requires
        0 <= i <= d < book.defs.len(),
        0 <= r < book.defs[d].rules.len(),
        spec_term_to_hvm(book.defs[d].rules@[r].body) is Ok,
    ensures
        compile_defs(acc, book, i).map.contains_key(def_net_name(book, book.defs[d])),
    decreases book.defs.len() - i,
{
    let def = book.defs[i];
    let acc1 = compile_rules(acc, def_net_name(book, def), def.rules@, 0);
    if i < d {
        lemma_compile_defs_has_net(acc1, book, i + 1, d, r);
    } else {
        assert(spec_term_to_hvm(def.rules@[r].body) is Ok);
        lemma_compile_rules_has_net(acc, def_net_name(book, def), def.rules@, 0);
        lemma_compile_defs_keeps_names(acc1, book, i + 1, def_net_name(book, def));
    }
}

/// The net of a definition whose name no later definition takes is that
/// of its last rule that compiles.
pub proof fn lemma_compile_defs_last_net(acc: Gathered, book: Book, i: int, d: int, r: int)
    requires
        0 <= i <= d < book.defs.len(),
        0 <= r < book.defs[d].rules.len(),
        spec_term_to_hvm(book.defs[d].rules@[r].body) is Ok,
        forall|q: int|
            r < q < book.defs[d].rules.len() ==> #[trigger] spec_term_to_hvm(
                book.defs[d].rules@[q].body,
            ) is Err,
        forall|e: int|
            d < e < book.defs.len() ==> def_net_name(book, #[trigger] book.defs[e]) != def_net_name(
                book,
                book.defs[d],
            ),
    ensures
        compile_defs(acc, book, i).map.contains_key(def_net_name(book, book.defs[d])),
        compile_defs(acc, book, i).map[def_net_name(book, book.defs[d])] == spec_term_to_hvm(
            book.defs[d].rules@[r].body,
        )->Ok_0,
    decreases book.defs.len() - i,
{
    let def = book.defs[i];
    let acc1 = compile_rules(acc, def_net_name(book, def), def.rules@, 0);
    if i < d {
        lemma_compile_defs_last_net(acc1, book, i + 1, d, r);
    } else {
        lemma_compile_rules_last_net(acc, def_net_name(book, def), def.rules@, 0, r);
        lemma_compile_defs_other_names(acc1, book, i + 1, def_net_name(book, def));
    }
}

/// Adding definitions given as nets keeps every name that has a net, and
/// gives each added name a net.
pub proof fn lemma_add_hvm_defs_names(
    map: Map<Seq<char>, NetV>,
    hvm_defs: Seq<HvmDefinition>,
    i: int,
    key: Seq<char>,
)
    requires
        0 <= i,
    ensures
        map.contains_key(key) ==> add_hvm_defs(map, hvm_defs, i).contains_key(key),
        forall|h: int|
            i <= h < hvm_defs.len() && #[trigger] hvm_defs[h].name@ == key ==> add_hvm_defs(
                map,
                hvm_defs,
                i,
            ).contains_key(key),
        (forall|h: int| i <= h < hvm_defs.len() ==> #[trigger] hvm_defs[h].name@ != key) ==> (
        add_hvm_defs(map, hvm_defs, i).contains_key(key) == map.contains_key(key) && (
        map.contains_key(key) ==> add_hvm_defs(map, hvm_defs, i)[key] == map[key])),
    decreases hvm_defs.len() - i,
{
    if i < hvm_defs.len() {
        lemma_add_hvm_defs_names(map.insert(hvm_defs[i].name@, hvm_defs[i].body@), hvm_defs, i + 1, key);
    }
}

/// A definition given as a net replaces what its name had, unless a later
/// one of the same name replaces it in turn.
pub proof fn lemma_add_hvm_defs_last(
    map: Map<Seq<char>, NetV>,
    hvm_defs: Seq<HvmDefinition>,
    i: int,
    h: int,
)
    requires
        0 <= i <= h < hvm_defs.len(),
        forall|q: int| h < q < hvm_defs.len() ==> #[trigger] hvm_defs[q].name@ != hvm_defs[h].name@,
    ensures
        add_hvm_defs(map, hvm_defs, i).contains_key(hvm_defs[h].name@),
        add_hvm_defs(map, hvm_defs, i)[hvm_defs[h].name@] == hvm_defs[h].body@,
    decreases hvm_defs.len() - i,
{
    let m1 = map.insert(hvm_defs[i].name@, hvm_defs[i].body@);
    if i < h {
        lemma_add_hvm_defs_last(m1, hvm_defs, i + 1, h);
    } else {
        lemma_add_hvm_defs_names(m1, hvm_defs, i + 1, hvm_defs[h].name@);
    }
}

/// Adds the definitions `hvm_defs[i..]` given as nets, replacing compiled
/// nets of the same name.
pub open spec fn add_hvm_defs(map: Map<Seq<char>, NetV>, hvm_defs: Seq<HvmDefinition>, i: int) -> Map<
    Seq<char>,
    NetV,
>
    decreases hvm_defs.len() - i,
{
    if i < 0 || i >= hvm_defs.len() {
        map
    } else {
        add_hvm_defs(map.insert(hvm_defs[i].name@, hvm_defs[i].body@), hvm_defs, i + 1)
    }
}

/// The nets and errors of a book, after the errors `errors0` already
/// collected.
pub open spec fn spec_book_to_hvm(book: Book, errors0: Seq<(Seq<char>, Seq<char>)>) -> Gathered {
    let acc = compile_defs(Gathered { map: Map::empty(), errors: errors0 }, book, 0);
    Gathered { map: add_hvm_defs(acc.map, book.hvm_defs@, 0), ..acc }
}

/// Every rule body of the book can be encoded and has linear variables.
pub open spec fn book_encodable(book: Book) -> bool {
    forall|i: int, j: int|
        0 <= i < book.defs.len() && 0 <= j < book.defs[i].rules.len() ==> term_encodable(
            #[trigger] book.defs[i].rules@[j].body,
        ) && vars_linear(book.defs[i].rules@[j].body)
}

/// A generator that is closed and remembers no names.
pub open spec fn finished(g: LabelGenerator) -> bool {
    &&& g.next == u16::MAX
    &&& g.name_to_label@ == Map::<Name, u16>::empty()
    &&& g.label_to_name@ == Map::<u16, Name>::empty()
}

/// Compiles every rule of every definition of a book into a net, adds the
/// definitions given as nets, and returns the compiled book with the label
/// generators, or, when any error was collected (before or now), the
/// collected errors.
pub fn book_to_hvm(book: &Book, diags: &mut Diagnostics) -> (res: Result<
    (crate::hvm::Book, Labels),
    Diagnostics,
>)
    requires
        book_encodable(*book),
    ensures
        ({
            let g = spec_book_to_hvm(*book, old(diags).errors());
            &&& g.errors.len() == 0 ==> (res matches Ok((hb, labels)) && hb.view_map() == g.map
                && names_unique(hb.defs@) && finished(labels.con) && finished(labels.dup)
                && labels.tup.is_empty() && final(diags).errors() == g.errors)
            &&& g.errors.len() > 0 ==> (res matches Err(d) && d.errors() == g.errors
                && final(diags).errors().len() == 0)
        }),
        res matches Err(d) ==> old(diags).errors().is_prefix_of(d.errors()),
        res matches Ok((hb, _)) ==> forall|i: int|
            0 <= i < book.defs.len() && book.defs[i].rules.len() > 0 ==> hb.view_map().contains_key(
                def_net_name(*book, #[trigger] book.defs[i]),
            ),
        res matches Ok((hb, _)) ==> forall|i: int|
            0 <= i < book.defs.len() && book.defs[i].rules.len() > 0 && (forall|e: int|
                i < e < book.defs.len() ==> def_net_name(*book, #[trigger] book.defs[e])
                    != def_net_name(*book, book.defs[i])) && (forall|h: int|
                0 <= h < book.hvm_defs.len() ==> #[trigger] book.hvm_defs[h].name@ != def_net_name(
                    *book,
                    book.defs[i],
                )) ==> hb.view_map()[def_net_name(*book, #[trigger] book.defs[i])]
                == spec_term_to_hvm(book.defs[i].rules@.last().body)->Ok_0,
        res matches Ok((hb, _)) ==> forall|h: int|
            0 <= h < book.hvm_defs.len() ==> hb.view_map().contains_key(
                #[trigger] book.hvm_defs[h].name@,
            ),
        res matches Ok((hb, _)) ==> forall|h: int|
            0 <= h < book.hvm_defs.len() && (forall|q: int|
                h < q < book.hvm_defs.len() ==> #[trigger] book.hvm_defs[q].name@
                    != book.hvm_defs[h].name@) ==> hb.view_map()[#[trigger] book.hvm_defs[h].name@]
                == book.hvm_defs[h].body@,
        forall|i: int, j: int|
            0 <= i < book.defs.len() && 0 <= j < book.defs[i].rules.len() && spec_term_to_hvm(
                #[trigger] book.defs[i].rules@[j].body,
            ) is Err ==> (res matches Err(d) && d.errors().contains(
                (vicious_msg(), def_net_name(*book, book.defs[i])),
            )),
{
    let mut hvm_book = crate::hvm::Book::new();
    let mut labels = Labels::default();
    let ghost init = Gathered { map: Map::empty(), errors: diags.errors() };
    let ghost whole = compile_defs(init, *book, 0);
    assert(hvm_book.view_map() =~= Map::empty());
    let mut i: usize = 0;
    while i < book.defs.len()
        invariant
            i <= book.defs.len(),
            book_encodable(*book),
            names_unique(hvm_book.defs@),
            compile_defs(
                Gathered { map: hvm_book.view_map(), errors: diags.errors() },
                *book,
                i as int,
            ) == whole,
            labels.con.is_empty(),
            labels.dup.is_empty(),
            labels.tup.is_empty(),
        decreases book.defs.len() - i,
    {
        let def = &book.defs[i];
        let ghost name_spec = def_net_name(*book, *def);
        let mut j: usize = 0;
        while j < def.rules.len()
            invariant
                i < book.defs.len(),
                def == book.defs[i as int],
                name_spec == def_net_name(*book, *def),
                j <= def.rules.len(),
                book_encodable(*book),
                names_unique(hvm_book.defs@),
                compile_defs(
                    compile_rules(
                        Gathered { map: hvm_book.view_map(), errors: diags.errors() },
                        name_spec,
                        def.rules@,
                        j as int,
                    ),
                    *book,
                    i + 1,
                ) == whole,
                labels.con.is_empty(),
                labels.dup.is_empty(),
                labels.tup.is_empty(),
            decreases def.rules.len() - j,
        {
            let rule = &def.rules[j];
            assert(term_encodable(book.defs[i as int].rules@[j as int].body));
            let net = term_to_hvm(&rule.body, &mut labels);
            let is_main = match &book.entrypoint {
                Some(m) => def.name == *m,
                None => false,
            };
            let name = if is_main {
                book.hvm_entrypoint()
            } else {
                def.name.clone()
            };
            assert(name@ == name_spec);
            match net {
                Ok(net) => {
                    hvm_book.insert(name, net);
                },
                Err(err) => {
                    diags.add_inet_error(err, name);
                },
            }
            j = j + 1;
        }
        i = i + 1;
    }
    let mut k: usize = 0;
    let ghost final_map = add_hvm_defs(whole.map, book.hvm_defs@, 0);
    while k < book.hvm_defs.len()
        invariant
            k <= book.hvm_defs.len(),
            names_unique(hvm_book.defs@),
            add_hvm_defs(hvm_book.view_map(), book.hvm_defs@, k as int) == final_map,
            diags.errors() == whole.errors,
            labels.con.is_empty(),
            labels.dup.is_empty(),
            labels.tup.is_empty(),
        decreases book.hvm_defs.len() - k,
    {
        let def = &book.hvm_defs[k];
        hvm_book.insert(def.name.clone(), def.body.duplicate());
        k = k + 1;
    }
    labels.con.finish();
    labels.dup.finish();
    proof {
        lemma_compile_defs_keeps(init, *book, 0);
        assert forall|a: int, b: int|
            0 <= a < book.defs.len() && 0 <= b < book.defs[a].rules.len() && spec_term_to_hvm(
                #[trigger] book.defs[a].rules@[b].body,
            ) is Err implies whole.errors.contains(
            (vicious_msg(), def_net_name(*book, book.defs[a])),
        ) by {
            lemma_compile_defs_errors(init, *book, 0, a, b);
        }
        if whole.errors.len() == 0 {
            assert forall|a: int|
                0 <= a < book.defs.len() && book.defs[a].rules.len() > 0 implies final_map.contains_key(
                def_net_name(*book, #[trigger] book.defs[a]),
            ) by {
                if spec_term_to_hvm(book.defs[a].rules@[0].body) is Err {
                    lemma_compile_defs_errors(init, *book, 0, a, 0);
                }
                lemma_compile_defs_has_net(init, *book, 0, a, 0);
                lemma_add_hvm_defs_names(
                    whole.map,
                    book.hvm_defs@,
                    0,
                    def_net_name(*book, book.defs[a]),
                );
            }
            assert forall|a: int|
                0 <= a < book.defs.len() && book.defs[a].rules.len() > 0 && (forall|e: int|
                    a < e < book.defs.len() ==> def_net_name(*book, #[trigger] book.defs[e])
                        != def_net_name(*book, book.defs[a])) && (forall|h: int|
                    0 <= h < book.hvm_defs.len() ==> #[trigger] book.hvm_defs[h].name@
                        != def_net_name(*book, book.defs[a])) implies final_map[def_net_name(
                *book,
                #[trigger] book.defs[a],
            )] == spec_term_to_hvm(book.defs[a].rules@.last().body)->Ok_0 by {
                let last = book.defs[a].rules.len() - 1;
                if spec_term_to_hvm(book.defs[a].rules@[last].body) is Err {
                    lemma_compile_defs_errors(init, *book, 0, a, last);
                }
                lemma_compile_defs_last_net(init, *book, 0, a, last);
                lemma_add_hvm_defs_names(
                    whole.map,
                    book.hvm_defs@,
                    0,
                    def_net_name(*book, book.defs[a]),
                );
            }
        }
        assert forall|h: int| 0 <= h < book.hvm_defs.len() implies final_map.contains_key(
            #[trigger] book.hvm_defs[h].name@,
        ) by {
            lemma_add_hvm_defs_names(whole.map, book.hvm_defs@, 0, book.hvm_defs[h].name@);
        }
        assert forall|h: int|
            0 <= h < book.hvm_defs.len() && (forall|q: int|
                h < q < book.hvm_defs.len() ==> #[trigger] book.hvm_defs[q].name@
                    != book.hvm_defs[h].name@) implies final_map[#[trigger] book.hvm_defs[h].name@]
            == book.hvm_defs[h].body@ by {
            lemma_add_hvm_defs_last(whole.map, book.hvm_defs@, 0, h);
        }
    }
    diags.fatal((hvm_book, labels))
}

} // verus!
