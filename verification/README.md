# bend

Compilation of lambda-calculus terms into interaction nets, verified with Verus.

A term (lambdas, applications, lets, fans, variables, references, erasers)
is encoded into a net of binary nodes. Places of the net under construction
live in an arena; linking two places either makes a redex, writes a tree into
a node's port, or joins two ports by a fresh named wire. Lets connect their
pattern and their value through a wire. When the whole term is encoded the
trees are read out of the arena; if fewer nodes are found than were created,
a vicious cycle put a node inside its own subtree and the term is refused.

Layout of `src/`:

- `names.rs` — names of generated wires, and their injectivity.
- `fun.rs` — terms, patterns, books; sizes, node counts, the encodable forms
  and variable linearity as spec functions.
- `hvm.rs` — trees, nets and compiled books, with their mathematical views.
- `arena.rs` — the encoding as mathematical functions over the arena, the
  arena's invariant, and the lemmas about linking and reading the net.
- `encode.rs` — the executable encoder, proved equal to the functions of
  `arena.rs`.
- `compile.rs` — `term_to_hvm` and `book_to_hvm`.
- `labels.rs` — label generators and the tags their labels stand for.
- `diagnostics.rs` — errors collected while compiling a book.

Main guarantees (see the contracts of `term_to_hvm`):

- the result is exactly the mathematical encoding of the term;
- a compiled net has exactly as many nodes as the term's lambdas,
  applications and fan links;
- in a compiled net every wire name occurs once as `Var` and once as `Sub`;
- for a term with linear variables, no variable is left unlinked.
