//! Labels of fan nodes, and the tags they stand for.
use vstd::prelude::*;
use std::collections::HashMap;
use crate::fun::{FanKind, Name, Tag};

verus! {

/// Generates labels for one kind of node, and remembers which names they
/// were generated for.
#[derive(Debug)]
pub struct LabelGenerator {
    pub next: u16,
    pub name_to_label: HashMap<Name, u16>,
    pub label_to_name: HashMap<u16, Name>,
}

/// The label generators of each kind of node.
#[derive(Debug)]
pub struct Labels {
    pub con: LabelGenerator,
    pub dup: LabelGenerator,
    pub tup: LabelGenerator,
}

impl Default for LabelGenerator {
    fn default() -> (g: Self)
        ensures
            g.next == 0,
            g.name_to_label@ == Map::<Name, u16>::empty(),
            g.label_to_name@ == Map::<u16, Name>::empty(),
    {
        LabelGenerator { next: 0, name_to_label: HashMap::new(), label_to_name: HashMap::new() }
    }
}

impl Default for Labels {
    fn default() -> (l: Self)
        ensures
            l.con.is_empty(),
            l.dup.is_empty(),
            l.tup.is_empty(),
    {
        Labels {
            con: LabelGenerator::default(),
            dup: LabelGenerator::default(),
            tup: LabelGenerator::default(),
        }
    }
}

/// The tag a label stands for (see `LabelGenerator::to_tag`).
pub open spec fn spec_to_tag(label_to_name: Map<u16, Name>, label: Option<u16>) -> Tag {
    match label {
        Some(l) => if label_to_name.contains_key(l) {
            Tag::Named(label_to_name[l])
        } else if l == 0 {
            Tag::Auto
        } else {
            Tag::Numeric(l)
        },
        None => Tag::Static,
    }
}

/// A label that names nothing stands for `Auto` exactly when it is 0, and
/// for itself as a number otherwise; so two such labels give the same tag
/// only when they are the same label. No label is `Static`, and a named
/// label stands for its name.
pub proof fn lemma_tag_of_label(label_to_name: Map<u16, Name>, l: u16, l2: u16)
    ensures
        !label_to_name.contains_key(l) ==> (spec_to_tag(label_to_name, Some(l)) is Auto <==> l
            == 0),
        !label_to_name.contains_key(l) && l != 0 ==> spec_to_tag(label_to_name, Some(l))
            == Tag::Numeric(l),
        !label_to_name.contains_key(l) && !label_to_name.contains_key(l2) && spec_to_tag(
            label_to_name,
            Some(l),
        ) == spec_to_tag(label_to_name, Some(l2)) ==> l == l2,
        label_to_name.contains_key(l) ==> spec_to_tag(label_to_name, Some(l)) == Tag::Named(
            label_to_name[l],
        ),
        spec_to_tag(label_to_name, None) is Static,
        spec_to_tag(label_to_name, Some(l)) !is Static,
{
}

impl LabelGenerator {
    /// A generator that has not generated anything.
    pub open spec fn is_empty(&self) -> bool {
        &&& self.next == 0
        &&& self.name_to_label@ == Map::<Name, u16>::empty()
        &&& self.label_to_name@ == Map::<u16, Name>::empty()
    }

    /// The tag of a label: the name it was generated for, if any; otherwise
    /// `Auto` for label 0 and `Numeric` for the others. No label is the
    /// `Static` tag.
    pub fn to_tag(&self, label: Option<u16>) -> (t: Tag)
        ensures
            match (t, spec_to_tag(self.label_to_name@, label)) {
                (Tag::Named(a), Tag::Named(b)) => a@ == b@,
                (a, b) => a == b,
            },
            label is None <==> t is Static,
            forall|l: u16|
                label == Some(l) && self.label_to_name@.contains_key(l) ==> (t matches Tag::Named(
                    n,
                ) && n@ == self.label_to_name@[l]@),
            forall|l: u16|
                label == Some(l) && !self.label_to_name@.contains_key(l) ==> (t is Auto <==> l
                    == 0),
            forall|l: u16|
                label == Some(l) && !self.label_to_name@.contains_key(l) && l != 0 ==> t
                    == Tag::Numeric(l),
    {
        broadcast use vstd::std_specs::hash::group_hash_axioms;

        match label {
            Some(label) => match self.label_to_name.get(&label) {
                Some(name) => Tag::Named(name.clone()),
                None => {
                    if label == 0 {
                        Tag::Auto
                    } else {
                        Tag::Numeric(label)
                    }
                },
            },
            None => Tag::Static,
        }
    }

    /// Closes the generator: no further label is to be generated, and the
    /// names it generated labels for are forgotten (the labels still map
    /// back to their names).
    pub fn finish(&mut self)
        ensures
            final(self).next == u16::MAX,
            final(self).name_to_label@ == Map::<Name, u16>::empty(),
            final(self).label_to_name@ == old(self).label_to_name@,
    {
        self.next = u16::MAX;
        self.name_to_label.clear();
    }
}

impl Labels {
    /// The generator of a fan kind.
    pub fn index(&self, fan: FanKind) -> (g: &LabelGenerator)
        ensures
            g == (match fan {
                FanKind::Tup => &self.tup,
                FanKind::Dup => &self.dup,
            }),
    {
        match fan {
            FanKind::Tup => &self.tup,
            FanKind::Dup => &self.dup,
        }
    }

    /// The generator of a fan kind, to be changed in place.
    pub fn index_mut(&mut self, fan: FanKind) -> (g: &mut LabelGenerator)
        ensures
            fan == FanKind::Tup ==> *g == old(self).tup && *final(self) == (Labels {
                tup: *final(g),
                ..*old(self)
            }),
            fan == FanKind::Dup ==> *g == old(self).dup && *final(self) == (Labels {
                dup: *final(g),
                ..*old(self)
            }),
    {
        match fan {
            FanKind::Tup => &mut self.tup,
            FanKind::Dup => &mut self.dup,
        }
    }
}

} // verus!
