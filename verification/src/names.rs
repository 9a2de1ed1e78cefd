//! Helpers for lists of branch names.
//!
//! Branch names are plain `String`s; a `Vec<String>` doubles as a small set
//! of names. Specifications speak about the sequence of views
//! (`Seq<Seq<char>>`) of such a list.

use vstd::prelude::*;

verus! {

/// The views of a sequence of branch-name strings.
pub open spec fn views(v: Seq<String>) -> Seq<Seq<char>> {
    v.map_values(|s: String| s@)
}

/// Whether `n` occurs among the names of `v`.
pub fn contains_name(v: &Vec<String>, n: &String) -> (r: bool)
    ensures
        r == views(v@).contains(n@),
{
    let mut i: usize = 0;
    while i < v.len()
        invariant
            0 <= i <= v@.len(),
            forall|k: int| 0 <= k < i ==> views(v@)[k] != n@,
        decreases v@.len() - i,
    {
        if v[i].eq(n) {
            assert(views(v@)[i as int] == n@);
            return true;
        }
        i = i + 1;
    }
    false
}

/// The position of `n` in `v`, if it occurs there.
pub fn index_of_name(v: &Vec<String>, n: &String) -> (r: Option<usize>)
    ensures
        match r {
            Some(i) => i < v@.len() && views(v@)[i as int] == n@,
            None => !views(v@).contains(n@),
        },
{
    let mut i: usize = 0;
    while i < v.len()
        invariant
            0 <= i <= v@.len(),
            forall|k: int| 0 <= k < i ==> views(v@)[k] != n@,
        decreases v@.len() - i,
    {
        if v[i].eq(n) {
            assert(views(v@)[i as int] == n@);
            return Some(i);
        }
        i = i + 1;
    }
    None
}

/// A copy of a name list.
pub fn clone_names(v: &Vec<String>) -> (r: Vec<String>)
    ensures
        views(r@) == views(v@),
{
    let mut out: Vec<String> = Vec::new();
    let n = v.len();
    let mut i: usize = 0;
    while i < n
        invariant
            i <= n,
            n == v@.len(),
            views(out@) =~= views(v@).take(i as int),
        decreases n - i,
    {
        let ghost pre = views(out@);
        out.push(v[i].clone());
        proof {
            assert(views(out@) =~= pre.push(v@[i as int]@));
            assert(views(out@) =~= views(v@).take(i + 1));
        }
        i = i + 1;
    }
    proof {
        assert(views(out@) =~= views(v@));
    }
    out
}

/// Appending one name inserts it into the set of names.
pub proof fn lemma_push_to_set(s: Seq<Seq<char>>, x: Seq<char>)
    ensures
        s.push(x).to_set() == s.to_set().insert(x),
{
    assert forall|y: Seq<char>| s.push(x).to_set().contains(y) implies s.to_set().insert(
        x,
    ).contains(y) by {
        let j = choose|j: int| 0 <= j < s.push(x).len() && s.push(x)[j] == y;
        if j < s.len() {
            assert(s[j] == y);
        }
    }
    assert forall|y: Seq<char>| s.to_set().insert(x).contains(y) implies s.push(
        x,
    ).to_set().contains(y) by {
        if y == x {
            assert(s.push(x)[s.len() as int] == y);
        } else {
            let j = choose|j: int| 0 <= j < s.len() && s[j] == y;
            assert(s.push(x)[j] == y);
        }
    }
    assert(s.push(x).to_set() =~= s.to_set().insert(x));
}

/// Appends `n` to `v` unless it is already present, keeping the list free of
/// duplicates.
pub fn push_unique(v: &mut Vec<String>, n: &String)
    requires
        views(old(v)@).no_duplicates(),
    ensures
        views(final(v)@).no_duplicates(),
        views(final(v)@).to_set() == views(old(v)@).to_set().insert(n@),
        views(old(v)@).is_prefix_of(views(final(v)@)),
        views(final(v)@).contains(n@),
        views(final(v)@) == if views(old(v)@).contains(n@) {
            views(old(v)@)
        } else {
            views(old(v)@).push(n@)
        },
{
    let present = contains_name(v, n);
    if !present {
        v.push(n.clone());
        assert(views(v@) =~= views(old(v)@).push(n@));
        assert(views(v@).to_set() =~= views(old(v)@).to_set().insert(n@)) by {
            assert forall|x: Seq<char>| views(v@).to_set().contains(x) implies views(
                old(v)@,
            ).to_set().contains(x) || x == n@ by {
                let j = choose|j: int| 0 <= j < views(v@).len() && views(v@)[j] == x;
                if j < views(old(v)@).len() {
                    assert(views(old(v)@)[j] == x);
                }
            }
            assert forall|x: Seq<char>| views(old(v)@).to_set().contains(x) implies views(
                v@,
            ).to_set().contains(x) by {
                let j = choose|j: int| 0 <= j < views(old(v)@).len() && views(old(v)@)[j] == x;
                assert(views(v@)[j] == x);
            }
            assert(views(v@).to_set().contains(n@)) by {
                assert(views(v@)[views(v@).len() - 1] == n@);
            }
        }
    } else {
        assert(views(v@).to_set() =~= views(old(v)@).to_set().insert(n@)) by {
            let j = choose|j: int| 0 <= j < views(v@).len() && views(v@)[j] == n@;
            assert(views(v@).to_set().contains(n@));
        }
    }
}

} // verus!
