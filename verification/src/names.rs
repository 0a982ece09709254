//! Ordered name-to-index resolution.
//!
//! Port and net names are kept in declaration order and resolved by a scan
//! for the first occurrence, so the caller-visible order never depends on
//! the iteration order of an unordered container.

use vstd::prelude::*;

verus! {

/// The index of the first occurrence of `name` in `names`, if any.
pub open spec fn find_name(names: Seq<Seq<char>>, name: Seq<char>) -> Option<int>
    decreases names.len(),
{
    if names.len() == 0 {
        None
    } else if names.first() == name {
        Some(0int)
    } else {
        match find_name(names.drop_first(), name) {
            Some(i) => Some(i + 1),
            None => None,
        }
    }
}

/// What `find_name` returns: `None` when the name is absent, otherwise the
/// position of the first occurrence.
pub proof fn lemma_find_name(names: Seq<Seq<char>>, name: Seq<char>)
    ensures
        match find_name(names, name) {
            None => forall|j: int| 0 <= j < names.len() ==> names[j] != name,
            Some(i) => 0 <= i < names.len() && names[i] == name && (forall|j: int|
                0 <= j < i ==> names[j] != name),
        },
    decreases names.len(),
{
    if names.len() > 0 && names.first() != name {
        lemma_find_name(names.drop_first(), name);
        match find_name(names, name) {
            None => {
                assert forall|j: int| 0 <= j < names.len() implies names[j] != name by {
                    if j > 0 {
                        assert(names.drop_first()[j - 1] == names[j]);
                    }
                }
            },
            Some(i) => {
                assert(names.drop_first()[i - 1] == names[i]);
                assert forall|j: int| 0 <= j < i implies names[j] != name by {
                    if j > 0 {
                        assert(names.drop_first()[j - 1] == names[j]);
                    }
                }
            },
        }
    }
}

/// Compares a borrowed string slice with an owned string.
pub fn str_eq(a: &str, b: &String) -> (r: bool)
    ensures
        r == (a@ == b@),
{
    a.to_owned() == *b
}

/// Copies a list of names.
pub fn clone_strings(v: &Vec<String>) -> (r: Vec<String>)
    ensures
        r@ == v@,
        r.deep_view() == v.deep_view(),
{
    let mut r: Vec<String> = Vec::new();
    let mut i: usize = 0;
    while i < v.len()
        invariant
            0 <= i <= v@.len(),
            r@.len() == i,
            forall|j: int| 0 <= j < i ==> r@[j] == v@[j],
        decreases v@.len() - i,
    {
        r.push(v[i].clone());
        i = i + 1;
    }
    proof {
        assert(r@ =~= v@);
        assert(r.deep_view() =~~= v.deep_view());
    }
    r
}

/// Converts a list of borrowed names into owned strings.
pub fn own_strings(v: &Vec<&str>) -> (r: Vec<String>)
    ensures
        r.deep_view() == v.deep_view(),
{
    let mut r: Vec<String> = Vec::new();
    let mut i: usize = 0;
    while i < v.len()
        invariant
            0 <= i <= v@.len(),
            r@.len() == i,
            forall|j: int| 0 <= j < i ==> (#[trigger] r@[j])@ == v@[j]@,
        decreases v@.len() - i,
    {
        r.push(v[i].to_owned());
        proof {
            assert(r@[i as int]@ == v@[i as int]@);
        }
        i = i + 1;
    }
    proof {
        assert(r.deep_view() =~~= v.deep_view());
    }
    r
}

/// The view of a list of owned name pairs.
pub open spec fn pairs_view(s: Seq<(String, String)>) -> Seq<(Seq<char>, Seq<char>)> {
    s.map_values(|p: (String, String)| (p.0@, p.1@))
}

/// The view of a list of borrowed name pairs.
pub open spec fn str_pairs_view(s: Seq<(&str, &str)>) -> Seq<(Seq<char>, Seq<char>)> {
    s.map_values(|p: (&str, &str)| (p.0@, p.1@))
}

/// Copies a list of name pairs.
pub fn clone_pairs(v: &Vec<(String, String)>) -> (r: Vec<(String, String)>)
    ensures
        pairs_view(r@) == pairs_view(v@),
{
    let mut r: Vec<(String, String)> = Vec::new();
    let mut i: usize = 0;
    while i < v.len()
        invariant
            0 <= i <= v@.len(),
            r@.len() == i,
            forall|j: int|
                0 <= j < i ==> (#[trigger] r@[j]).0@ == v@[j].0@ && r@[j].1@ == v@[j].1@,
        decreases v@.len() - i,
    {
        let pair = (v[i].0.clone(), v[i].1.clone());
        r.push(pair);
        i = i + 1;
    }
    proof {
        assert(pairs_view(r@) =~= pairs_view(v@));
    }
    r
}

/// Converts a list of borrowed name pairs into owned strings.
pub fn own_pairs(v: &Vec<(&str, &str)>) -> (r: Vec<(String, String)>)
    ensures
        pairs_view(r@) == str_pairs_view(v@),
{
    let mut r: Vec<(String, String)> = Vec::new();
    let mut i: usize = 0;
    while i < v.len()
        invariant
            0 <= i <= v@.len(),
            r@.len() == i,
            forall|j: int|
                0 <= j < i ==> (#[trigger] r@[j]).0@ == v@[j].0@ && r@[j].1@ == v@[j].1@,
        decreases v@.len() - i,
    {
        let pair = (v[i].0.to_owned(), v[i].1.to_owned());
        r.push(pair);
        i = i + 1;
    }
    proof {
        assert(pairs_view(r@) =~= str_pairs_view(v@));
    }
    r
}

/// Finds the first position of `name` in `names`.
pub fn find(names: &Vec<String>, name: &str) -> (r: Option<usize>)
    ensures
        match find_name(names.deep_view(), name@) {
            None => r is None,
            Some(i) => 0 <= i <= usize::MAX && r == Some(i as usize),
        },
{
    let ghost model = names.deep_view();
    let mut i: usize = 0;
    while i < names.len()
        invariant
            0 <= i <= names@.len(),
            model == names.deep_view(),
            forall|j: int| 0 <= j < i ==> model[j] != name@,
        decreases names@.len() - i,
    {
        if str_eq(name, &names[i]) {
            proof {
                assert(model[i as int] == names@[i as int]@);
                lemma_find_name(model, name@);
            }
            return Some(i);
        }
        i = i + 1;
    }
    proof {
        lemma_find_name(model, name@);
    }
    None
}

} // verus!
