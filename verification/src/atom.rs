//! Interned strings.
//!
//! Names and arguments are held as atoms of the `string_cache` crate, so that
//! a word that occurs many times is stored once. The verifier cannot look
//! inside an atom; this module states what the rest of the crate relies on.

use string_cache::DefaultAtom as Atom;
use vstd::prelude::*;

verus! {

/// Makes `string_cache::Atom` known to the verifier, as a type that it
/// cannot look into.
#[verifier::external_type_specification]
#[verifier::external_body]
#[verifier::reject_recursive_types(Static)]
pub struct ExAtom<Static>(string_cache::Atom<Static>);

/// Makes `string_cache::EmptyStaticAtomSet` known to the verifier: the
/// marker of atoms that are all made while the program runs.
#[verifier::external_type_specification]
#[verifier::external_body]
pub struct ExEmptyStaticAtomSet(string_cache::EmptyStaticAtomSet);

/// The text that an atom stands for.
pub uninterp spec fn atom_text(a: Atom) -> Seq<char>;

/// Calls `Atom::from(&str)`. Trusted: the atom that comes back stands for
/// exactly the text that went in.
#[verifier::external_body]
pub(crate) fn intern(s: &str) -> (a: Atom)
    ensures
        atom_text(a) == s@,
{
    Atom::from(s)
}

/// Calls `AsRef::<str>::as_ref` on an atom. Trusted: the slice that comes
/// back is the text the atom stands for.
#[verifier::external_body]
pub(crate) fn atom_str(a: &Atom) -> (s: &str)
    ensures
        s@ == atom_text(*a),
{
    a.as_ref()
}

/// Calls `Clone::clone` on an atom. Trusted: the copy stands for the same
/// text.
#[verifier::external_body]
pub(crate) fn atom_clone(a: &Atom) -> (b: Atom)
    ensures
        atom_text(b) == atom_text(*a),
{
    a.clone()
}

} // verus!
