//! The mathematical model of path assembly: joining one component to a base
//! path, and folding a whole sequence of components onto it.
//!
//! Paths use `'\\'` as their separator. Joining never doubles the separator:
//! a base that already ends in one (such as a volume root `"C:\"`) gets the
//! component appended directly.

use vstd::prelude::*;

verus! {

/// One component appended to a base path: `join("C:\", "Users") == "C:\Users"`,
/// `join("C:\Users", "kiki") == "C:\Users\kiki"`. An empty base is left out
/// entirely rather than producing a leading separator.
pub open spec fn join(base: Seq<char>, comp: Seq<char>) -> Seq<char> {
    if base.len() == 0 {
        comp
    } else if base.last() == '\\' {
        base + comp
    } else {
        base + seq!['\\'] + comp
    }
}

/// Every name of `names` joined onto `base`, left to right.
pub open spec fn path_from(base: Seq<char>, names: Seq<Seq<char>>) -> Seq<char>
    decreases names.len(),
{
    if names.len() == 0 {
        base
    } else {
        path_from(join(base, names.first()), names.drop_first())
    }
}

/// Folding one more name at the end is one more join.
pub proof fn lemma_path_from_push(base: Seq<char>, names: Seq<Seq<char>>, name: Seq<char>)
    ensures
        path_from(base, names.push(name)) == join(path_from(base, names), name),
    decreases names.len(),
{
    if names.len() == 0 {
        assert(names.push(name).first() == name);
        assert(names.push(name).drop_first() =~= Seq::<Seq<char>>::empty());
        assert(path_from(base, names.push(name)) == path_from(
            join(base, name),
            Seq::<Seq<char>>::empty(),
        ));
        assert(path_from(join(base, name), Seq::<Seq<char>>::empty()) == join(base, name));
    } else {
        assert(names.push(name).first() == names.first());
        assert(names.push(name).drop_first() =~= names.drop_first().push(name));
        lemma_path_from_push(join(base, names.first()), names.drop_first(), name);
    }
}

/// The names of a sequence of chain entries (record number, name), in order.
pub open spec fn names_of(entries: Seq<(u64, Seq<char>)>) -> Seq<Seq<char>> {
    entries.map_values(|e: (u64, Seq<char>)| e.1)
}

} // verus!
