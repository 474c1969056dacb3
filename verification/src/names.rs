//! Name lists with set semantics.
//!
//! The engine reasons about sets of member names.  At run time a set of
//! names is held as a `Vec<String>` without duplicates; its mathematical
//! value is the `Set<Seq<char>>` of the entries' character sequences.

use vstd::prelude::*;

use crate::types::{Board, board_names};

verus! {

/// The character sequences of a list of strings, in order.
pub open spec fn string_views(ss: Seq<String>) -> Seq<Seq<char>> {
    ss.map_values(|s: String| s@)
}

/// The set of distinct character sequences in a list of strings.
pub open spec fn string_view_set(ss: Seq<String>) -> Set<Seq<char>> {
    string_views(ss).to_set()
}

pub proof fn lemma_string_views_push(ss: Seq<String>, s: String)
    ensures
        string_views(ss.push(s)) =~= string_views(ss).push(s@),
{
}

pub proof fn lemma_push_to_set<A>(s: Seq<A>, x: A)
    ensures
        s.push(x).to_set() =~= s.to_set().insert(x),
{
    assert forall|a: A| #[trigger] s.push(x).to_set().contains(a) implies s.to_set().insert(
        x,
    ).contains(a) by {
        let i = choose|i: int| 0 <= i < s.push(x).len() && s.push(x)[i] == a;
        if i < s.len() {
            assert(s[i] == a);
        }
    }
    assert forall|a: A| s.to_set().insert(x).contains(a) implies #[trigger] s.push(
        x,
    ).to_set().contains(a) by {
        if s.to_set().contains(a) {
            let i = choose|i: int| 0 <= i < s.len() && s[i] == a;
            assert(s.push(x)[i] == a);
        } else {
            assert(s.push(x)[s.len() as int] == a);
        }
    }
}

pub proof fn lemma_push_no_duplicates<A>(s: Seq<A>, x: A)
    requires
        s.no_duplicates(),
        !s.contains(x),
    ensures
        s.push(x).no_duplicates(),
{
    assert forall|i: int, j: int|
        0 <= i < s.push(x).len() && 0 <= j < s.push(x).len() && i != j implies s.push(x)[i] != s.push(
        x,
    )[j] by {
        if i < s.len() && j < s.len() {
        } else if i < s.len() {
            assert(s.push(x)[i] == s[i]);
            assert(s.contains(s[i])) by {
                assert(s[i] == s[i]);
            }
        } else if j < s.len() {
            assert(s.contains(s[j])) by {
                assert(s[j] == s[j]);
            }
        }
    }
}

/// String equality, stated over the character sequences.
pub fn string_eq(a: &String, b: &String) -> (r: bool)
    ensures
        r == (a@ == b@),
{
    a.eq(b)
}

/// Whether the list holds an entry whose characters are `name@`.
pub fn contains_name(ss: &Vec<String>, name: &String) -> (r: bool)
    ensures
        r == string_view_set(ss@).contains(name@),
{
    let mut i: usize = 0;
    while i < ss.len()
        invariant
            0 <= i <= ss@.len(),
            forall|k: int| 0 <= k < i ==> ss@[k]@ != name@,
        decreases ss@.len() - i,
    {
        if string_eq(&ss[i], name) {
            proof {
                assert(string_views(ss@)[i as int] == name@);
            }
            return true;
        }
        i += 1;
    }
    proof {
        assert forall|k: int| 0 <= k < string_views(ss@).len() implies string_views(ss@)[k]
            != name@ by {
            assert(string_views(ss@)[k] == ss@[k]@);
        }
    }
    false
}

/// Appends `name` unless an equal entry is already there, keeping the list
/// duplicate-free and moving its set value to `set.insert(name@)`.
pub fn push_unique(ss: &mut Vec<String>, name: &String)
    ensures
        string_view_set(final (ss)@) == string_view_set(old(ss)@).insert(name@),
        string_views(old(ss)@).no_duplicates() ==> string_views(final (ss)@).no_duplicates(),
        old(ss)@.len() <= final (ss)@.len() <= old(ss)@.len() + 1,
        string_view_set(old(ss)@).contains(name@) ==> final (ss)@ == old(ss)@,
        !string_view_set(old(ss)@).contains(name@) ==> final (ss)@ == old(ss)@.push(*name),
{
    let present = contains_name(ss, name);
    if !present {
        let ghost before = ss@;
        ss.push(name.clone());
        proof {
            assert(ss@ =~= before.push(*name));
        }
        proof {
            lemma_string_views_push(before, final (ss)@.last());
            lemma_push_to_set(string_views(before), name@);
            assert(string_views(final (ss)@) =~= string_views(before).push(name@));
            if string_views(before).no_duplicates() {
                lemma_push_no_duplicates(string_views(before), name@);
            }
        }
    } else {
        proof {
            assert(string_view_set(ss@) =~= string_view_set(ss@).insert(name@));
        }
    }
}

/// A fresh list with the same entries in the same order.
pub fn clone_names(ss: &Vec<String>) -> (r: Vec<String>)
    ensures
        r@ =~= ss@,
{
    let mut r: Vec<String> = Vec::new();
    let mut i: usize = 0;
    while i < ss.len()
        invariant
            0 <= i <= ss@.len(),
            r@ =~= ss@.take(i as int),
        decreases ss@.len() - i,
    {
        r.push(ss[i].clone());
        i += 1;
    }
    r
}

/// The same entries without repeats, first occurrences kept in order.
pub fn dedup_names(xs: &Vec<String>) -> (r: Vec<String>)
    ensures
        string_views(r@).no_duplicates(),
        string_view_set(r@) == string_view_set(xs@),
        r@.len() <= xs@.len(),
{
    let mut r: Vec<String> = Vec::new();
    let mut i: usize = 0;
    while i < xs.len()
        invariant
            0 <= i <= xs@.len(),
            string_views(r@).no_duplicates(),
            string_view_set(r@) == string_view_set(xs@.take(i as int)),
            r@.len() <= i,
        decreases xs@.len() - i,
    {
        proof {
            assert(xs@.take(i as int + 1) =~= xs@.take(i as int).push(xs@[i as int]));
            lemma_string_views_push(xs@.take(i as int), xs@[i as int]);
            assert(string_views(xs@.take(i as int + 1)) =~= string_views(
                xs@.take(i as int),
            ).push(xs@[i as int]@));
            lemma_push_to_set(string_views(xs@.take(i as int)), xs@[i as int]@);
        }
        push_unique(&mut r, &xs[i]);
        proof {
            assert(string_view_set(r@) =~= string_view_set(xs@.take(i as int + 1)));
        }
        i += 1;
    }
    proof {
        assert(xs@.take(xs@.len() as int) =~= xs@);
    }
    r
}

/// The entries of `xs` that have no equal entry in `ys`: the set difference,
/// kept duplicate-free.
pub fn names_difference(xs: &Vec<String>, ys: &Vec<String>) -> (r: Vec<String>)
    requires
        string_views(xs@).no_duplicates(),
    ensures
        string_views(r@).no_duplicates(),
        string_view_set(r@) == string_view_set(xs@).difference(string_view_set(ys@)),
        r@.len() <= xs@.len(),
{
    let mut r: Vec<String> = Vec::new();
    let mut i: usize = 0;
    while i < xs.len()
        invariant
            0 <= i <= xs@.len(),
            string_views(xs@).no_duplicates(),
            string_views(r@).no_duplicates(),
            string_view_set(r@) == string_view_set(xs@.take(i as int)).difference(
                string_view_set(ys@),
            ),
            r@.len() <= i,
        decreases xs@.len() - i,
    {
        let ghost before = r@;
        let ghost prefix = xs@.take(i as int);
        proof {
            assert(string_views(prefix) =~= string_views(xs@).take(i as int));
            assert(xs@.take(i as int + 1).drop_last() =~= prefix);
            assert(string_views(xs@.take(i as int + 1)) =~= string_views(prefix).push(
                xs@[i as int]@,
            )) by {
                lemma_string_views_push(prefix, xs@[i as int]);
                assert(xs@.take(i as int + 1) =~= prefix.push(xs@[i as int]));
            }
            lemma_push_to_set(string_views(prefix), xs@[i as int]@);
        }
        if !contains_name(ys, &xs[i]) {
            proof {
                // xs has no duplicate views, so the new entry is not in the prefix
                assert(!string_views(prefix).contains(xs@[i as int]@)) by {
                    if string_views(prefix).contains(xs@[i as int]@) {
                        let k = choose|k: int|
                            0 <= k < string_views(prefix).len() && string_views(prefix)[k] == xs@[i
                            as int]@;
                        assert(string_views(xs@)[k] == string_views(xs@)[i as int]);
                    }
                }
                assert(!string_view_set(before).contains(xs@[i as int]@));
            }
            push_unique(&mut r, &xs[i]);
            proof {
                assert(string_view_set(r@) =~= string_view_set(xs@.take(i as int + 1)).difference(
                    string_view_set(ys@),
                ));
            }
        } else {
            proof {
                assert(string_view_set(r@) =~= string_view_set(xs@.take(i as int + 1)).difference(
                    string_view_set(ys@),
                ));
            }
        }
        i += 1;
    }
    proof {
        assert(xs@.take(xs@.len() as int) =~= xs@);
    }
    r
}

/// The set union of two name lists; `xs` must be duplicate-free, and the
/// result is.
pub fn names_union(xs: &Vec<String>, ys: &Vec<String>) -> (r: Vec<String>)
    requires
        string_views(xs@).no_duplicates(),
    ensures
        string_views(r@).no_duplicates(),
        string_view_set(r@) == string_view_set(xs@).union(string_view_set(ys@)),
        r@.len() <= xs@.len() + ys@.len(),
{
    let mut r = clone_names(xs);
    let mut j: usize = 0;
    while j < ys.len()
        invariant
            0 <= j <= ys@.len(),
            string_views(r@).no_duplicates(),
            string_view_set(r@) == string_view_set(xs@).union(
                string_view_set(ys@.take(j as int)),
            ),
            r@.len() <= xs@.len() + j,
        decreases ys@.len() - j,
    {
        proof {
            assert(ys@.take(j as int + 1) =~= ys@.take(j as int).push(ys@[j as int]));
            lemma_string_views_push(ys@.take(j as int), ys@[j as int]);
            assert(string_views(ys@.take(j as int + 1)) =~= string_views(
                ys@.take(j as int),
            ).push(ys@[j as int]@));
            lemma_push_to_set(string_views(ys@.take(j as int)), ys@[j as int]@);
        }
        push_unique(&mut r, &ys[j]);
        proof {
            assert(string_view_set(r@) =~= string_view_set(xs@).union(
                string_view_set(ys@.take(j as int + 1)),
            ));
        }
        j += 1;
    }
    proof {
        assert(ys@.take(ys@.len() as int) =~= ys@);
    }
    r
}

/// How many entries of the duplicate-free list `xs` have an equal entry in
/// `ys`: the cardinality of the set intersection.
pub fn count_in(xs: &Vec<String>, ys: &Vec<String>) -> (n: usize)
    requires
        string_views(xs@).no_duplicates(),
    ensures
        n == string_view_set(xs@).intersect(string_view_set(ys@)).len(),
        n <= xs@.len(),
{
    broadcast use vstd::seq_lib::seq_to_set_is_finite;

    let mut n: usize = 0;
    let mut i: usize = 0;
    proof {
        assert(string_views(xs@.take(0)) =~= Seq::<Seq<char>>::empty());
        assert(string_view_set(xs@.take(0)).intersect(string_view_set(ys@))
            =~= Set::<Seq<char>>::empty());
    }
    while i < xs.len()
        invariant
            0 <= i <= xs@.len(),
            string_views(xs@).no_duplicates(),
            n == string_view_set(xs@.take(i as int)).intersect(string_view_set(ys@)).len(),
            n <= i,
        decreases xs@.len() - i,
    {
        broadcast use vstd::seq_lib::seq_to_set_is_finite;

        let ghost prefix = xs@.take(i as int);
        let ghost pset = string_view_set(prefix);
        let ghost yset = string_view_set(ys@);
        let ghost v = xs@[i as int]@;
        proof {
            assert(string_views(prefix) =~= string_views(xs@).take(i as int));
            assert(xs@.take(i as int + 1) =~= prefix.push(xs@[i as int]));
            lemma_string_views_push(prefix, xs@[i as int]);
            assert(string_views(xs@.take(i as int + 1)) =~= string_views(prefix).push(v));
            lemma_push_to_set(string_views(prefix), v);
            assert(string_view_set(xs@.take(i as int + 1)) == pset.insert(v));
            // the new entry is not in the prefix (no duplicates)
            assert(!string_views(prefix).contains(v)) by {
                if string_views(prefix).contains(v) {
                    let k = choose|k: int|
                        0 <= k < string_views(prefix).len() && string_views(prefix)[k] == v;
                    assert(string_views(xs@)[k] == string_views(xs@)[i as int]);
                }
            }
            assert(!pset.contains(v));
        }
        if contains_name(ys, &xs[i]) {
            proof {
                assert(pset.insert(v).intersect(yset) =~= pset.intersect(yset).insert(v));
                assert(pset.intersect(yset).len() <= pset.len()) by {
                    vstd::set_lib::lemma_len_subset(pset.intersect(yset), pset);
                }
            }
            n += 1;
        } else {
            proof {
                assert(pset.insert(v).intersect(yset) =~= pset.intersect(yset));
            }
        }
        i += 1;
    }
    proof {
        assert(xs@.take(xs@.len() as int) =~= xs@);
    }
    n
}

/// The distinct member names of a board, as a duplicate-free list whose set
/// value is `board_names(b@)`.
pub fn roster_names(b: &Board) -> (r: Vec<String>)
    ensures
        string_views(r@).no_duplicates(),
        string_view_set(r@) == board_names(b@),
{
    let mut r: Vec<String> = Vec::new();
    let mut i: usize = 0;
    while i < b.members.len()
        invariant
            0 <= i <= b.members@.len(),
            string_views(r@).no_duplicates(),
            string_view_set(r@) == crate::types::member_names(
                b@.members.take(i as int),
            ).to_set(),
        decreases b.members@.len() - i,
    {
        let ghost prefix = b@.members.take(i as int);
        proof {
            assert(b@.members.take(i as int + 1) =~= prefix.push(b@.members[i as int]));
            assert(crate::types::member_names(prefix.push(b@.members[i as int])) =~=
                crate::types::member_names(prefix).push(b@.members[i as int].name));
            lemma_push_to_set(crate::types::member_names(prefix), b@.members[i as int].name);
            assert(b@.members[i as int].name == b.members@[i as int]@.name);
        }
        push_unique(&mut r, &b.members[i].name);
        proof {
            assert(string_view_set(r@) =~= crate::types::member_names(
                b@.members.take(i as int + 1),
            ).to_set());
        }
        i += 1;
    }
    proof {
        assert(b@.members.take(b@.members.len() as int) =~= b@.members);
    }
    r
}

/// The distinct member names of board `b` that also stand in `roster`:
/// a duplicate-free list whose set value is the conflict set of `b`.
pub fn conflict_names(b: &Board, roster: &Vec<String>) -> (r: Vec<String>)
    ensures
        string_views(r@).no_duplicates(),
        string_view_set(r@) == board_names(b@).intersect(string_view_set(roster@)),
{
    let all = roster_names(b);
    let mut r: Vec<String> = Vec::new();
    let mut i: usize = 0;
    while i < all.len()
        invariant
            0 <= i <= all@.len(),
            string_views(all@).no_duplicates(),
            string_view_set(all@) == board_names(b@),
            string_views(r@).no_duplicates(),
            string_view_set(r@) == string_view_set(all@.take(i as int)).intersect(
                string_view_set(roster@),
            ),
        decreases all@.len() - i,
    {
        let ghost prefix = all@.take(i as int);
        let ghost v = all@[i as int]@;
        proof {
            assert(string_views(prefix) =~= string_views(all@).take(i as int));
            assert(all@.take(i as int + 1) =~= prefix.push(all@[i as int]));
            lemma_string_views_push(prefix, all@[i as int]);
            assert(string_views(all@.take(i as int + 1)) =~= string_views(prefix).push(v));
            lemma_push_to_set(string_views(prefix), v);
        }
        if contains_name(roster, &all[i]) {
            push_unique(&mut r, &all[i]);
        }
        proof {
            if string_view_set(roster@).contains(v) {
                assert(string_view_set(r@) =~= string_view_set(all@.take(i as int + 1)).intersect(
                    string_view_set(roster@),
                ));
            } else {
                assert(string_view_set(r@) =~= string_view_set(all@.take(i as int + 1)).intersect(
                    string_view_set(roster@),
                ));
            }
        }
        i += 1;
    }
    proof {
        assert(all@.take(all@.len() as int) =~= all@);
    }
    r
}

} // verus!
