//! Enumeration of the n-element combinations of an indexed letter sequence.
//!
//! The enumeration itself is done by the `itertools` crate; the spec function
//! `combinations_spec` states exactly which sequence of combinations it
//! produces, and the lemmas here derive the structural facts the allocation
//! search needs (each combination's length, and that each combination is a
//! sub-multiset of the input).

use vstd::prelude::*;
use itertools::Itertools;

verus! {

use crate::points::{all_letters, is_letter};

/// All n-element combinations of `s`, ordered lexicographically by the
/// sequence of chosen indices; each combination keeps the input order.
/// Choosing nothing has exactly one (empty) outcome; choosing more elements
/// than `s` has, none.
pub open spec fn combinations_spec(s: Seq<char>, n: int) -> Seq<Seq<char>>
    decreases s.len(),
{
    if n <= 0 {
        seq![Seq::<char>::empty()]
    } else if s.len() < n {
        Seq::<Seq<char>>::empty()
    } else {
        combinations_spec(s.drop_first(), n - 1).map_values(
            |t: Seq<char>| seq![s.first()] + t,
        ) + combinations_spec(s.drop_first(), n)
    }
}

/// Relies on itertools' `Itertools::combinations`: over a fresh iterator of
/// `letters` it yields every `n`-element combination of the (index-distinct)
/// elements, in lexicographic order of the chosen index sequence, each
/// combination listing its elements in input order.
#[verifier::external_body]
pub(crate) fn char_combinations(letters: &Vec<char>, n: usize) -> (r: Vec<Vec<char>>)
    ensures
        r.deep_view() == combinations_spec(letters@, n as int),
{
    letters
        .iter()
        .combinations(n)
        .map(|c| c.into_iter().copied().collect())
        .collect()
}

/// Every enumerated combination of `s` choosing `n >= 1` elements has
/// exactly `n` elements and is a sub-multiset of `s`.
pub proof fn lemma_combinations_elements(s: Seq<char>, n: int)
    requires
        1 <= n,
    ensures
        forall|i: int| 0 <= i < combinations_spec(s, n).len() ==> {
            &&& (#[trigger] combinations_spec(s, n)[i]).len() == n
            &&& combinations_spec(s, n)[i].to_multiset().subset_of(s.to_multiset())
        },
    decreases s.len(),
{
    broadcast use vstd::seq_lib::group_to_multiset_ensures;

    if s.len() < n {
        // no combinations
    } else {
        let s1 = s.drop_first();
        let head = seq![s.first()];
        assert(s =~= head + s1);
        vstd::seq_lib::lemma_multiset_commutative(head, s1);
        let with_first = combinations_spec(s1, n - 1).map_values(
            |t: Seq<char>| seq![s.first()] + t,
        );
        let without_first = combinations_spec(s1, n);
        assert(combinations_spec(s, n) == with_first + without_first);
        if n - 1 >= 1 {
            lemma_combinations_elements(s1, n - 1);
        }
        lemma_combinations_elements(s1, n);
        assert forall|i: int| 0 <= i < with_first.len() implies {
            &&& (#[trigger] with_first[i]).len() == n
            &&& with_first[i].to_multiset().subset_of(s.to_multiset())
        } by {
            let t = combinations_spec(s1, n - 1)[i];
            assert(with_first[i] == head + t);
            vstd::seq_lib::lemma_multiset_commutative(head, t);
            if n - 1 <= 0 {
                assert(t =~= Seq::<char>::empty());
                assert(t.to_multiset().len() == 0);
                vstd::multiset::lemma_multiset_empty_len(t.to_multiset());
            } else {
                assert(t.len() == n - 1 && t.to_multiset().subset_of(s1.to_multiset()));
            }
            assert forall|v: char|
                (head + t).to_multiset().count(v) <= s.to_multiset().count(v) by {
                assert((head + t).to_multiset().count(v)
                    == head.to_multiset().count(v) + t.to_multiset().count(v));
                assert(s.to_multiset().count(v)
                    == head.to_multiset().count(v) + s1.to_multiset().count(v));
                assert(t.to_multiset().count(v) <= s1.to_multiset().count(v));
            }
        }
        assert forall|i: int| 0 <= i < without_first.len() implies {
            &&& (#[trigger] without_first[i]).len() == n
            &&& without_first[i].to_multiset().subset_of(s.to_multiset())
        } by {
            assert forall|v: char|
                without_first[i].to_multiset().count(v) <= s.to_multiset().count(v) by {
                assert(without_first[i].to_multiset().count(v) <= s1.to_multiset().count(v));
                assert(s.to_multiset().count(v)
                    == head.to_multiset().count(v) + s1.to_multiset().count(v));
            }
        }
        assert forall|i: int| 0 <= i < combinations_spec(s, n).len() implies {
            &&& (#[trigger] combinations_spec(s, n)[i]).len() == n
            &&& combinations_spec(s, n)[i].to_multiset().subset_of(s.to_multiset())
        } by {
            if i < with_first.len() {
                assert(combinations_spec(s, n)[i] == with_first[i]);
            } else {
                assert(combinations_spec(s, n)[i] == without_first[i - with_first.len()]);
            }
        }
    }
}

/// Every element of a sub-multiset of `s` occurs in `s`; in particular a
/// sub-multiset of a sequence of playable letters holds playable letters.
pub proof fn lemma_submultiset_all_letters(t: Seq<char>, s: Seq<char>)
    requires
        t.to_multiset().subset_of(s.to_multiset()),
        all_letters(s),
    ensures
        all_letters(t),
        forall|i: int| 0 <= i < t.len() ==> s.contains(#[trigger] t[i]),
{
    broadcast use vstd::seq_lib::group_to_multiset_ensures;

    assert forall|i: int| 0 <= i < t.len() implies s.contains(#[trigger] t[i])
        && is_letter(t[i]) by {
        assert(t.contains(t[i]));
        assert(t.to_multiset().count(t[i]) > 0);
        assert(s.to_multiset().count(t[i]) > 0);
        assert(s.contains(t[i]));
        let j = choose|j: int| 0 <= j < s.len() && s[j] == t[i];
        assert(is_letter(s[j]));
    }
}

} // verus!
