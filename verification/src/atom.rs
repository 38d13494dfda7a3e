//! The atoms that a compiled pattern is made of.

use vstd::prelude::*;
use crate::symbol::Symbol;

verus! {

/// One unit of a compiled pattern.
#[derive(Debug, PartialEq, Eq)]
pub enum Atom {
    /// Exactly this character.
    Literal(char),
    /// Any digit.
    AnyDigit,
    /// Any letter or digit.
    AnyAlphanumeric,
    /// Any character at all.
    Wildcard,
    /// Any character listed in the set.
    PositiveClass(Vec<char>),
    /// Any character not listed in the set.
    NegativeClass(Vec<char>),
    /// The match must begin at the start of the line.
    StartAnchor,
    /// The match must end at the end of the line.
    EndAnchor,
    /// The wrapped atom, one or more times in a row, as often as possible.
    OneOrMore(Box<Atom>),
    /// The wrapped atom, once if possible and otherwise not at all.
    ZeroOrOne(Box<Atom>),
}

/// The mathematical value of an [`Atom`]: the same variants, with the
/// members of a class as a sequence.
pub enum AtomView {
    Literal(char),
    AnyDigit,
    AnyAlphanumeric,
    Wildcard,
    PositiveClass(Seq<char>),
    NegativeClass(Seq<char>),
    StartAnchor,
    EndAnchor,
    OneOrMore(Box<AtomView>),
    ZeroOrOne(Box<AtomView>),
}

/// The value of `atom`.
pub open spec fn atom_view(atom: Atom) -> AtomView
    decreases atom,
{
    match atom {
        Atom::Literal(c) => AtomView::Literal(c),
        Atom::AnyDigit => AtomView::AnyDigit,
        Atom::AnyAlphanumeric => AtomView::AnyAlphanumeric,
        Atom::Wildcard => AtomView::Wildcard,
        Atom::PositiveClass(members) => AtomView::PositiveClass(members@),
        Atom::NegativeClass(members) => AtomView::NegativeClass(members@),
        Atom::StartAnchor => AtomView::StartAnchor,
        Atom::EndAnchor => AtomView::EndAnchor,
        Atom::OneOrMore(inner) => AtomView::OneOrMore(Box::new(atom_view(*inner))),
        Atom::ZeroOrOne(inner) => AtomView::ZeroOrOne(Box::new(atom_view(*inner))),
    }
}

impl View for Atom {
    type V = AtomView;

    open spec fn view(&self) -> AtomView {
        atom_view(*self)
    }
}

/// The values of a sequence of atoms, in order.
pub open spec fn program_view(atoms: Seq<Atom>) -> Seq<AtomView> {
    Seq::new(atoms.len(), |i: int| atoms[i]@)
}

impl AtomView {
    /// Whether a single input character satisfies this atom.
    ///
    /// An anchor has no width, so no character satisfies it. A quantified
    /// atom is satisfied by what satisfies the atom it wraps.
    pub open spec fn accepts(self, s: Symbol) -> bool
        decreases self,
    {
        match self {
            AtomView::Literal(c) => s.ch == c,
            AtomView::AnyDigit => s.digit,
            AtomView::AnyAlphanumeric => s.alphanumeric,
            AtomView::Wildcard => true,
            AtomView::PositiveClass(members) => members.contains(s.ch),
            AtomView::NegativeClass(members) => !members.contains(s.ch),
            AtomView::StartAnchor => false,
            AtomView::EndAnchor => false,
            AtomView::OneOrMore(inner) => inner.accepts(s),
            AtomView::ZeroOrOne(inner) => inner.accepts(s),
        }
    }

    /// Whether this atom tests exactly one character: neither an anchor
    /// nor a quantified atom.
    pub open spec fn is_plain(self) -> bool {
        match self {
            AtomView::StartAnchor => false,
            AtomView::EndAnchor => false,
            AtomView::OneOrMore(_) => false,
            AtomView::ZeroOrOne(_) => false,
            _ => true,
        }
    }
}

/// Whether `c` occurs among `members`.
pub fn is_member(members: &Vec<char>, c: char) -> (found: bool)
    ensures
        found == members@.contains(c),
{
    let mut i: usize = 0;
    while i < members.len()
        invariant
            i <= members.len(),
            forall|j: int| 0 <= j < i ==> members@[j] != c,
        decreases members.len() - i,
    {
        if members[i] == c {
            return true;
        }
        i += 1;
    }
    false
}

impl Clone for Atom {
    /// A copy with the same value.
    fn clone(&self) -> (copy: Atom)
        ensures
            copy@ == self@,
        decreases self,
    {
        match self {
            Atom::Literal(c) => Atom::Literal(*c),
            Atom::AnyDigit => Atom::AnyDigit,
            Atom::AnyAlphanumeric => Atom::AnyAlphanumeric,
            Atom::Wildcard => Atom::Wildcard,
            Atom::PositiveClass(members) => Atom::PositiveClass(members.clone()),
            Atom::NegativeClass(members) => Atom::NegativeClass(members.clone()),
            Atom::StartAnchor => Atom::StartAnchor,
            Atom::EndAnchor => Atom::EndAnchor,
            Atom::OneOrMore(inner) => Atom::OneOrMore(Box::new((**inner).clone())),
            Atom::ZeroOrOne(inner) => Atom::ZeroOrOne(Box::new((**inner).clone())),
        }
    }
}

impl Atom {
    /// Whether the input character `s` satisfies this atom.
    pub fn accepts(&self, s: &Symbol) -> (ok: bool)
        ensures
            ok == self@.accepts(*s),
        decreases self,
    {
        match self {
            Atom::Literal(c) => s.ch == *c,
            Atom::AnyDigit => s.digit,
            Atom::AnyAlphanumeric => s.alphanumeric,
            Atom::Wildcard => true,
            Atom::PositiveClass(members) => is_member(members, s.ch),
            Atom::NegativeClass(members) => !is_member(members, s.ch),
            Atom::StartAnchor => false,
            Atom::EndAnchor => false,
            Atom::OneOrMore(inner) => inner.accepts(s),
            Atom::ZeroOrOne(inner) => inner.accepts(s),
        }
    }
}

} // verus!
