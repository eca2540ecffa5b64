//! Errors collected while compiling a book.
use vstd::prelude::*;

verus! {

/// An error, with the definition it was found in.
#[derive(Debug)]
pub struct Diagnostic {
    pub origin: String,
    pub message: String,
}

/// The errors collected so far.
#[derive(Debug)]
pub struct Diagnostics {
    pub diagnostics: Vec<Diagnostic>,
}

impl Diagnostics {
    /// The collected errors, as (message, definition) pairs, oldest first.
    pub open spec fn errors(&self) -> Seq<(Seq<char>, Seq<char>)> {
        self.diagnostics@.map_values(|d: Diagnostic| (d.message@, d.origin@))
    }

    /// No errors yet.
    pub fn new() -> (d: Diagnostics)
        ensures
            d.errors() == Seq::<(Seq<char>, Seq<char>)>::empty(),
    {
        let d = Diagnostics { diagnostics: Vec::new() };
        assert(d.errors() =~= Seq::empty());
        d
    }

    /// Records an error found while building the net of a definition.
    pub fn add_inet_error(&mut self, err: String, def_name: String)
        ensures
            final(self).errors() == old(self).errors().push((err@, def_name@)),
    {
        let ghost before = self.errors();
        self.diagnostics.push(Diagnostic { origin: def_name, message: err });
        assert(self.errors() =~= before.push((err@, def_name@)));
    }

    pub fn has_errors(&self) -> (b: bool)
        ensures
            b == (self.errors().len() > 0),
    {
        self.diagnostics.len() > 0
    }

    /// Hands back `t` when no error was collected; otherwise hands over the
    /// collected errors, leaving none behind.
    pub fn fatal<T>(&mut self, t: T) -> (r: Result<T, Diagnostics>)
        ensures
            old(self).errors().len() == 0 ==> r == Ok::<T, Diagnostics>(t) && final(self).errors()
                == old(self).errors(),
            old(self).errors().len() > 0 ==> (r matches Err(d) && d.errors() == old(self).errors()
                && final(self).errors().len() == 0),
    {
        if !self.has_errors() {
            Ok(t)
        } else {
            let mut taken: Vec<Diagnostic> = Vec::new();
            std::mem::swap(&mut taken, &mut self.diagnostics);
            assert(self.errors() =~= Seq::empty());
            Err(Diagnostics { diagnostics: taken })
        }
    }
}

} // verus!
