//! Looking a name up in an ordered list of names.
use vstd::prelude::*;

verus! {

/// The characters of each name.
pub open spec fn names_view(names: Seq<String>) -> Seq<Seq<char>> {
    names.map_values(|s: String| s@)
}

/// Viewing names commutes with appending a name.
pub proof fn lemma_names_view_push(names: Seq<String>, s: String)
    ensures
        names_view(names.push(s)) == names_view(names).push(s@),
{
    assert(names_view(names.push(s)) =~= names_view(names).push(s@));
}

/// `k` is the first position at which `name` stands in `names`.
pub open spec fn is_first_position(names: Seq<Seq<char>>, name: Seq<char>, k: int) -> bool {
    &&& 0 <= k < names.len()
    &&& names[k] == name
    &&& forall|j: int| 0 <= j < k ==> names[j] != name
}

/// The first position of `name` in `names`, if it occurs.
pub open spec fn position_of(names: Seq<Seq<char>>, name: Seq<char>) -> Option<int> {
    if exists|k: int| is_first_position(names, name, k) {
        Some(choose|k: int| is_first_position(names, name, k))
    } else {
        None
    }
}

/// A first position of a name is the one that `position_of` gives.
pub proof fn lemma_first_position_unique(names: Seq<Seq<char>>, name: Seq<char>, k: int)
    requires
        is_first_position(names, name, k),
    ensures
        position_of(names, name) == Some(k),
{
    let c = choose|c: int| is_first_position(names, name, c);
    assert(is_first_position(names, name, c));
    if c < k {
        assert(names[c] != name);
    } else if k < c {
        assert(names[k] != name);
    }
}

/// The first position at which `name` stands in `names`.
pub fn find_position(names: &Vec<String>, name: &String) -> (r: Option<usize>)
    ensures
        match r {
            Some(k) => position_of(names_view(names@), name@) == Some(k as int),
            None => position_of(names_view(names@), name@) == None::<int>,
        },
        r is None <==> !names_view(names@).contains(name@),
{
    let ghost nv = names_view(names@);
    let mut i: usize = 0;
    while i < names.len()
        invariant
            i <= names.len(),
            nv == names_view(names@),
            forall|j: int| 0 <= j < i ==> nv[j] != name@,
        decreases names.len() - i,
    {
        if names[i] == *name {
            proof {
                assert(is_first_position(nv, name@, i as int));
                lemma_first_position_unique(nv, name@, i as int);
            }
            return Some(i);
        }
        i += 1;
    }
    assert(!exists|k: int| is_first_position(nv, name@, k));
    assert(!nv.contains(name@)) by {
        if nv.contains(name@) {
            let k = choose|k: int| 0 <= k < nv.len() && nv[k] == name@;
            assert(nv[k] != name@);
        }
    }
    None
}

} // verus!
