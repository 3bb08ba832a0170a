//! The higher-value-letter allocation search.
//!
//! For one length/points split, the search enumerates the subsets of the
//! higher-value letters whose excess points exactly account for the first
//! word's points above its one-point-per-letter floor, discards subsets that
//! repeat an already accepted value-multiset (repeated letters in the
//! inventory make index-distinct combinations indistinguishable), and pairs
//! each accepted subset with its multiplicity-aware complement: the
//! higher-value letters left over for the second word.

use vstd::prelude::*;

verus! {

use crate::combos::{
    char_combinations, combinations_spec, lemma_combinations_elements,
    lemma_submultiset_all_letters,
};
use crate::points::{all_letters, excess_points_of, excess_sum};
use vstd::multiset::Multiset;

/// Some already accepted subset has the same letters with the same
/// multiplicities as `c`.
pub open spec fn has_equal_multiset(acc: Seq<Seq<char>>, c: Seq<char>) -> bool {
    exists|i: int| 0 <= i < acc.len() && (#[trigger] acc[i]).to_multiset() == c.to_multiset()
}

/// One step of the acceptance pass: keep `c` only when its excess sum is the
/// required excess and no accepted subset has the same value-multiset.
pub open spec fn accepted_step(acc: Seq<Seq<char>>, c: Seq<char>, te: int) -> Seq<Seq<char>> {
    if excess_sum(c) == te && !has_equal_multiset(acc, c) {
        acc.push(c)
    } else {
        acc
    }
}

/// The subsets accepted after running the acceptance pass over all
/// candidates, in candidate order.
pub open spec fn accepted_all(cands: Seq<Seq<char>>, te: int) -> Seq<Seq<char>>
    decreases cands.len(),
{
    if cands.len() == 0 {
        Seq::<Seq<char>>::empty()
    } else {
        accepted_step(accepted_all(cands.drop_last(), te), cands.last(), te)
    }
}

/// All combinations of the higher-value letters of sizes 1 through `n`,
/// sizes ascending, each size in enumeration order.
pub open spec fn pool_upto(hvl: Seq<char>, n: int) -> Seq<Seq<char>>
    decreases n,
{
    if n <= 0 {
        Seq::<Seq<char>>::empty()
    } else {
        pool_upto(hvl, n - 1) + combinations_spec(hvl, n)
    }
}

/// Every candidate subset the search considers: all combinations of the
/// higher-value letters, from single letters up to the whole multiset.
pub open spec fn candidate_pool(hvl: Seq<char>) -> Seq<Seq<char>> {
    pool_upto(hvl, hvl.len() as int)
}

/// `s` with the first occurrence of `x` removed; `s` unchanged when `x` does
/// not occur.
pub open spec fn remove_first(s: Seq<char>, x: char) -> Seq<char>
    decreases s.len(),
{
    if s.len() == 0 {
        s
    } else if s.first() == x {
        s.drop_first()
    } else {
        seq![s.first()] + remove_first(s.drop_first(), x)
    }
}

/// The complement of a subset: the higher-value letters with one matching
/// instance removed per subset letter, in order.
pub open spec fn complement_of(hvl: Seq<char>, sub: Seq<char>) -> Seq<char>
    decreases sub.len(),
{
    if sub.len() == 0 {
        hvl
    } else {
        complement_of(remove_first(hvl, sub.first()), sub.drop_first())
    }
}

/// Removing the first occurrence of a present element removes exactly one
/// instance of it from the value-multiset.
pub proof fn lemma_remove_first_multiset(s: Seq<char>, x: char)
    requires
        s.contains(x),
    ensures
        remove_first(s, x).to_multiset() == s.to_multiset().remove(x),
        remove_first(s, x).len() == s.len() - 1,
    decreases s.len(),
{
    broadcast use vstd::seq_lib::group_to_multiset_ensures;
    broadcast use vstd::multiset::group_multiset_axioms;

    let s1 = s.drop_first();
    let head = seq![s.first()];
    assert(s =~= head + s1);
    vstd::seq_lib::lemma_multiset_commutative(head, s1);
    assert(head.to_multiset() =~= Multiset::<char>::empty().insert(s.first())) by {
        assert(head =~= Seq::<char>::empty().push(s.first()));
        assert(Seq::<char>::empty().to_multiset().len() == 0);
        vstd::multiset::lemma_multiset_empty_len(Seq::<char>::empty().to_multiset());
    }
    if s.first() == x {
        assert(remove_first(s, x) == s1);
        assert forall|v: char| s1.to_multiset().count(v) == s.to_multiset().remove(x).count(v) by {
            assert(s.to_multiset().count(v) == head.to_multiset().count(v)
                + s1.to_multiset().count(v));
        }
        assert(s1.to_multiset() =~= s.to_multiset().remove(x));
    } else {
        assert(s1.contains(x)) by {
            let i = choose|i: int| 0 <= i < s.len() && s[i] == x;
            assert(s1[i - 1] == x);
        }
        lemma_remove_first_multiset(s1, x);
        let r1 = remove_first(s1, x);
        assert(remove_first(s, x) == head + r1);
        vstd::seq_lib::lemma_multiset_commutative(head, r1);
        assert(s1.to_multiset().count(x) > 0);
        assert forall|v: char|
            (head + r1).to_multiset().count(v) == s.to_multiset().remove(x).count(v) by {
            assert((head + r1).to_multiset().count(v) == head.to_multiset().count(v)
                + r1.to_multiset().count(v));
            assert(s.to_multiset().count(v) == head.to_multiset().count(v)
                + s1.to_multiset().count(v));
            assert(r1.to_multiset().count(v) == s1.to_multiset().remove(x).count(v));
        }
        assert((head + r1).to_multiset() =~= s.to_multiset().remove(x));
    }
}

/// A subset drawn from the higher-value letters and its complement together
/// carry exactly the higher-value letters: no letter is lost or duplicated.
pub proof fn lemma_complement_multiset(hvl: Seq<char>, sub: Seq<char>)
    requires
        sub.to_multiset().subset_of(hvl.to_multiset()),
    ensures
        complement_of(hvl, sub).to_multiset().add(sub.to_multiset()) == hvl.to_multiset(),
        complement_of(hvl, sub).len() + sub.len() == hvl.len(),
    decreases sub.len(),
{
    broadcast use vstd::seq_lib::group_to_multiset_ensures;
    broadcast use vstd::multiset::group_multiset_axioms;

    if sub.len() == 0 {
        assert(sub.to_multiset().len() == 0);
        vstd::multiset::lemma_multiset_empty_len(sub.to_multiset());
        assert(complement_of(hvl, sub).to_multiset().add(sub.to_multiset())
            =~= hvl.to_multiset());
    } else {
        let x = sub.first();
        let sub1 = sub.drop_first();
        let headx = seq![x];
        assert(sub =~= headx + sub1);
        vstd::seq_lib::lemma_multiset_commutative(headx, sub1);
        assert(headx.to_multiset() =~= Multiset::<char>::empty().insert(x)) by {
            assert(headx =~= Seq::<char>::empty().push(x));
            assert(Seq::<char>::empty().to_multiset().len() == 0);
            vstd::multiset::lemma_multiset_empty_len(Seq::<char>::empty().to_multiset());
        }
        assert(sub.to_multiset().count(x) > 0);
        assert(hvl.to_multiset().count(x) > 0);
        assert(hvl.contains(x));
        lemma_remove_first_multiset(hvl, x);
        let hvl1 = remove_first(hvl, x);
        assert(sub1.to_multiset().subset_of(hvl1.to_multiset())) by {
            assert forall|v: char|
                sub1.to_multiset().count(v) <= hvl1.to_multiset().count(v) by {
                assert(sub.to_multiset().count(v) == headx.to_multiset().count(v)
                    + sub1.to_multiset().count(v));
                assert(sub.to_multiset().count(v) <= hvl.to_multiset().count(v));
            }
        }
        lemma_complement_multiset(hvl1, sub1);
        assert(complement_of(hvl, sub) == complement_of(hvl1, sub1));
        assert forall|v: char|
            complement_of(hvl, sub).to_multiset().add(sub.to_multiset()).count(v)
                == hvl.to_multiset().count(v) by {
            assert(complement_of(hvl1, sub1).to_multiset().add(sub1.to_multiset()).count(v)
                == hvl1.to_multiset().count(v));
            assert(sub.to_multiset().count(v) == headx.to_multiset().count(v)
                + sub1.to_multiset().count(v));
        }
        assert(complement_of(hvl, sub).to_multiset().add(sub.to_multiset())
            =~= hvl.to_multiset());
    }
}

/// Copy a vector of letters.
fn copy_letters(v: &Vec<char>) -> (r: Vec<char>)
    ensures
        r@ == v@,
{
    let mut r: Vec<char> = Vec::new();
    let mut i: usize = 0;
    while i < v.len()
        invariant
            0 <= i <= v@.len(),
            r@ == v@.take(i as int),
        decreases v@.len() - i,
    {
        r.push(v[i]);
        proof {
            assert(v@.take(i + 1) =~= v@.take(i as int).push(v@[i as int]));
        }
        i = i + 1;
    }
    proof {
        assert(v@.take(v@.len() as int) =~= v@);
    }
    r
}

/// The position of the first occurrence of `x` in `v`, if any.
fn index_of_first(v: &Vec<char>, x: char) -> (r: Option<usize>)
    ensures
        match r {
            Some(j) => j < v@.len() && v@[j as int] == x && (forall|k: int|
                0 <= k < j ==> v@[k] != x),
            None => !v@.contains(x),
        },
{
    let mut j: usize = 0;
    while j < v.len()
        invariant
            0 <= j <= v@.len(),
            forall|k: int| 0 <= k < j ==> v@[k] != x,
        decreases v@.len() - j,
    {
        if v[j] == x {
            return Some(j);
        }
        j = j + 1;
    }
    None
}

/// Whether two letter vectors hold the same letters with the same
/// multiplicities, regardless of order.
fn multiset_eq(a: &Vec<char>, b: &Vec<char>) -> (r: bool)
    ensures
        r <==> a@.to_multiset() == b@.to_multiset(),
{
    broadcast use vstd::seq_lib::group_to_multiset_ensures;
    broadcast use vstd::multiset::group_multiset_axioms;

    if a.len() != b.len() {
        proof {
            assert(a@.to_multiset().len() == a@.len());
            assert(b@.to_multiset().len() == b@.len());
        }
        return false;
    }
    let mut rest = copy_letters(b);
    let mut i: usize = 0;
    while i < a.len()
        invariant
            0 <= i <= a@.len(),
            a@.len() == b@.len(),
            rest@.len() == b@.len() - i,
            rest@.to_multiset().add(a@.take(i as int).to_multiset()) == b@.to_multiset(),
        decreases a@.len() - i,
    {
        broadcast use vstd::seq_lib::group_to_multiset_ensures;
        broadcast use vstd::multiset::group_multiset_axioms;

        let x = a[i];
        match index_of_first(&rest, x) {
            Some(j) => {
                let ghost old_rest = rest@;
                let _ = rest.remove(j);
                proof {
                    assert(rest@ == old_rest.remove(j as int));
                    assert(rest@.to_multiset() == old_rest.to_multiset().remove(x));
                    assert(old_rest.contains(x));
                    assert(old_rest.to_multiset().count(x) > 0);
                    assert(a@.take(i + 1) =~= a@.take(i as int).push(x));
                    assert(a@.take(i + 1).to_multiset()
                        =~= a@.take(i as int).to_multiset().insert(x));
                    assert forall|v: char|
                        rest@.to_multiset().add(a@.take(i + 1).to_multiset()).count(v)
                            == b@.to_multiset().count(v) by {
                        assert(old_rest.to_multiset().add(
                            a@.take(i as int).to_multiset()).count(v)
                            == b@.to_multiset().count(v));
                    }
                    assert(rest@.to_multiset().add(a@.take(i + 1).to_multiset())
                        =~= b@.to_multiset());
                }
            },
            None => {
                proof {
                    assert(rest@.to_multiset().count(x) == 0) by {
                        if rest@.to_multiset().count(x) > 0 {
                            assert(rest@.contains(x));
                        }
                    }
                    assert(b@.to_multiset().count(x)
                        == a@.take(i as int).to_multiset().count(x));
                    let tail = a@.skip(i as int);
                    assert(a@ =~= a@.take(i as int) + tail);
                    vstd::seq_lib::lemma_multiset_commutative(a@.take(i as int), tail);
                    assert(tail[0] == x);
                    assert(tail.contains(x));
                    assert(tail.to_multiset().count(x) > 0);
                    assert(a@.to_multiset().count(x) > b@.to_multiset().count(x));
                }
                return false;
            },
        }
        i = i + 1;
    }
    proof {
        assert(rest@.len() == 0);
        assert(rest@.to_multiset().len() == 0);
        vstd::multiset::lemma_multiset_empty_len(rest@.to_multiset());
        assert(a@.take(a@.len() as int) =~= a@);
        assert forall|v: char| a@.to_multiset().count(v) == b@.to_multiset().count(v) by {
            assert(rest@.to_multiset().add(a@.to_multiset()).count(v)
                == b@.to_multiset().count(v));
        }
        assert(a@.to_multiset() =~= b@.to_multiset());
    }
    true
}

/// The complement of `sub` against `hvl`: one matching instance removed per
/// subset letter, never a value filter.
fn complement_of_exec(hvl: &Vec<char>, sub: &Vec<char>) -> (r: Vec<char>)
    requires
        sub@.to_multiset().subset_of(hvl@.to_multiset()),
    ensures
        r@ == complement_of(hvl@, sub@),
{
    broadcast use vstd::seq_lib::group_to_multiset_ensures;
    broadcast use vstd::multiset::group_multiset_axioms;

    let mut work = copy_letters(hvl);
    let mut i: usize = 0;
    proof {
        assert(sub@.skip(0) =~= sub@);
    }
    while i < sub.len()
        invariant
            0 <= i <= sub@.len(),
            complement_of(hvl@, sub@) == complement_of(work@, sub@.skip(i as int)),
            sub@.skip(i as int).to_multiset().subset_of(work@.to_multiset()),
        decreases sub@.len() - i,
    {
        broadcast use vstd::seq_lib::group_to_multiset_ensures;
        broadcast use vstd::multiset::group_multiset_axioms;

        let x = sub[i];
        let ghost tail = sub@.skip(i as int);
        proof {
            assert(tail[0] == x);
            assert(tail.contains(x));
            assert(tail.to_multiset().count(x) > 0);
            assert(work@.to_multiset().count(x) > 0);
            assert(work@.contains(x));
        }
        match index_of_first(&work, x) {
            Some(j) => {
                let ghost old_work = work@;
                let _ = work.remove(j);
                proof {
                    lemma_remove_first_at_index(old_work, x, j as int);
                    assert(work@ == remove_first(old_work, x));
                    lemma_remove_first_multiset(old_work, x);
                    let tail1 = sub@.skip(i + 1);
                    assert(tail =~= seq![x] + tail1);
                    vstd::seq_lib::lemma_multiset_commutative(seq![x], tail1);
                    assert(seq![x].to_multiset() =~= Multiset::<char>::empty().insert(x)) by {
                        assert(seq![x] =~= Seq::<char>::empty().push(x));
                        assert(Seq::<char>::empty().to_multiset().len() == 0);
                        vstd::multiset::lemma_multiset_empty_len(
                            Seq::<char>::empty().to_multiset(),
                        );
                    }
                    assert(tail.drop_first() =~= tail1);
                    assert(complement_of(old_work, tail)
                        == complement_of(remove_first(old_work, x), tail1));
                    assert forall|v: char|
                        tail1.to_multiset().count(v) <= work@.to_multiset().count(v) by {
                        assert(tail.to_multiset().count(v) == seq![x].to_multiset().count(v)
                            + tail1.to_multiset().count(v));
                        assert(tail.to_multiset().count(v) <= old_work.to_multiset().count(v));
                    }
                }
            },
            None => {
                proof {
                    assert(false);
                }
            },
        }
        i = i + 1;
    }
    proof {
        assert(sub@.skip(sub@.len() as int) =~= Seq::<char>::empty());
        assert(complement_of(work@, Seq::<char>::empty()) == work@);
    }
    work
}

/// A subset of the higher-value letters that accounts for the first word's
/// excess points, together with the letters left for the second word.
#[derive(Debug, PartialEq, Eq)]
pub struct AllocationPair {
    pub first_word_subset: Vec<char>,
    pub second_word_subset: Vec<char>,
}

/// The two letter sequences of each emitted pair, in emission order.
pub open spec fn pair_views(rs: Seq<AllocationPair>) -> Seq<(Seq<char>, Seq<char>)> {
    rs.map_values(|p: AllocationPair| (p.first_word_subset@, p.second_word_subset@))
}

/// What the allocation search emits for higher-value letters `hvl` and
/// required excess `te`: with no higher-value letters, the single empty
/// allocation exactly when no excess is required; otherwise each accepted
/// first-word subset (candidates in pool order, value-duplicates dropped)
/// paired with its complement.
pub open spec fn alloc_pairs_spec(hvl: Seq<char>, te: int) -> Seq<(Seq<char>, Seq<char>)> {
    if hvl.len() == 0 {
        if te == 0 {
            seq![(Seq::<char>::empty(), Seq::<char>::empty())]
        } else {
            Seq::<(Seq<char>, Seq<char>)>::empty()
        }
    } else {
        accepted_all(candidate_pool(hvl), te).map_values(
            |c: Seq<char>| (c, complement_of(hvl, c)),
        )
    }
}

/// The loop invariant of the allocation search: the pairs found so far are
/// exactly the acceptance pass over the candidates processed so far, each
/// with its complement.
spec fn search_inv(
    rs: Seq<AllocationPair>,
    processed: Seq<Seq<char>>,
    hv: Seq<char>,
    te: int,
) -> bool {
    &&& rs.map_values(|p: AllocationPair| p.first_word_subset@) == accepted_all(processed, te)
    &&& forall|i: int|
        0 <= i < rs.len() ==> (#[trigger] rs[i]).second_word_subset@ == complement_of(
            hv,
            rs[i].first_word_subset@,
        )
}

impl crate::pair_search::Combination {
    /// Find every value-distinct subset of the higher-value letters whose
    /// excess points equal the first word's points above its one-point
    /// floor, each paired with the complementary letters for the second
    /// word, in enumeration order (subset size ascending).
    pub fn find_higher_value_letter_combinations(
        &self,
        higher_value_letters: &Vec<char>,
    ) -> (r: Vec<AllocationPair>)
        requires
            all_letters(higher_value_letters@),
            higher_value_letters@.len() <= 20,
            self.wf(),
        ensures
            pair_views(r@) == alloc_pairs_spec(
                higher_value_letters@,
                self.first_word_points - self.first_word_length,
            ),
    {
        let te: i32 = self.first_word_points - self.first_word_length;
        let ghost hv = higher_value_letters@;
        let ghost tev = te as int;
        let mut result: Vec<AllocationPair> = Vec::new();

        if higher_value_letters.len() == 0 {
            if te == 0 {
                result.push(AllocationPair {
                    first_word_subset: Vec::new(),
                    second_word_subset: Vec::new(),
                });
            }
            proof {
                assert(pair_views(result@) =~~= alloc_pairs_spec(hv, tev));
            }
            return result;
        }

        let k = higher_value_letters.len();
        let ghost mut processed = Seq::<Seq<char>>::empty();
        proof {
            assert(result@.map_values(|p: AllocationPair| p.first_word_subset@)
                =~= accepted_all(processed, tev));
        }
        let mut n: usize = 1;
        while n <= k
            invariant
                1 <= n <= k + 1,
                k == hv.len(),
                hv == higher_value_letters@,
                all_letters(hv),
                1 <= k <= 20,
                tev == te as int,
                processed == pool_upto(hv, n - 1),
                search_inv(result@, processed, hv, tev),
            decreases k + 1 - n,
        {
            let combos = char_combinations(higher_value_letters, n);
            let m = combos.len();
            let ghost spec_combos = combinations_spec(hv, n as int);
            proof {
                assert(combos.deep_view().len() == spec_combos.len());
                assert(m == spec_combos.len());
                assert(spec_combos.take(0) =~= Seq::<Seq<char>>::empty());
                assert(processed + spec_combos.take(0) =~= processed);
                lemma_combinations_elements(hv, n as int);
            }
            let ghost processed_before = processed;
            let mut ji: usize = 0;
            while ji < m
                invariant
                    0 <= ji <= m,
                    1 <= n <= k,
                    k == hv.len(),
                    hv == higher_value_letters@,
                    all_letters(hv),
                    1 <= k <= 20,
                    tev == te as int,
                    m == combos@.len(),
                    combos.deep_view() == spec_combos,
                    spec_combos == combinations_spec(hv, n as int),
                    forall|q: int| 0 <= q < spec_combos.len() ==> {
                        &&& (#[trigger] spec_combos[q]).len() == n
                        &&& spec_combos[q].to_multiset().subset_of(hv.to_multiset())
                    },
                    processed == processed_before + spec_combos.take(ji as int),
                    processed_before == pool_upto(hv, n - 1),
                    search_inv(result@, processed, hv, tev),
                decreases m - ji,
            {
                let c = &combos[ji];
                let ghost cs = c@;
                proof {
                    assert(combos.deep_view()[ji as int] == spec_combos[ji as int]);
                    assert(combos.deep_view()[ji as int] =~= cs);
                    assert(cs.len() == n);
                    assert(cs.to_multiset().subset_of(hv.to_multiset()));
                    lemma_submultiset_all_letters(cs, hv);
                }
                let s = excess_points_of(c);
                let ghost acc = accepted_all(processed, tev);
                if s == te {
                    let mut dup = false;
                    let mut q: usize = 0;
                    while q < result.len()
                        invariant
                            0 <= q <= result@.len(),
                            cs == c@,
                            dup <==> (exists|ii: int|
                                0 <= ii < q && (#[trigger] result@[ii]).first_word_subset@
                                    .to_multiset() == cs.to_multiset()),
                        decreases result@.len() - q,
                    {
                        if multiset_eq(&result[q].first_word_subset, c) {
                            dup = true;
                        }
                        q = q + 1;
                    }
                    proof {
                        assert(acc.len() == result@.len());
                        assert(forall|ii: int| 0 <= ii < result@.len()
                            ==> acc[ii] == (#[trigger] result@[ii]).first_word_subset@);
                        assert(dup <==> has_equal_multiset(acc, cs));
                    }
                    if !dup {
                        let comp = complement_of_exec(higher_value_letters, c);
                        let first_copy = copy_letters(c);
                        result.push(AllocationPair {
                            first_word_subset: first_copy,
                            second_word_subset: comp,
                        });
                        proof {
                            assert(accepted_step(acc, cs, tev) == acc.push(cs));
                            assert(result@.map_values(|p: AllocationPair| p.first_word_subset@)
                                =~= acc.push(cs));
                        }
                    } else {
                        proof {
                            assert(accepted_step(acc, cs, tev) == acc);
                        }
                    }
                } else {
                    proof {
                        assert(excess_sum(cs) != tev);
                        assert(accepted_step(acc, cs, tev) == acc);
                    }
                }
                proof {
                    let processed_new = processed.push(cs);
                    assert(processed_new.drop_last() =~= processed);
                    assert(processed_new.last() == cs);
                    assert(accepted_all(processed_new, tev)
                        == accepted_step(accepted_all(processed, tev), cs, tev));
                    processed = processed_new;
                    assert(spec_combos.take(ji + 1) =~= spec_combos.take(ji as int).push(cs));
                    assert(processed =~= processed_before + spec_combos.take(ji + 1));
                }
                ji = ji + 1;
            }
            proof {
                assert(spec_combos.take(m as int) =~= spec_combos);
                assert(processed =~= pool_upto(hv, n - 1) + combinations_spec(hv, n as int));
                assert(processed =~= pool_upto(hv, n as int));
            }
            n = n + 1;
        }
        proof {
            assert(processed == pool_upto(hv, k as int));
            assert(candidate_pool(hv) == pool_upto(hv, k as int));
            let firsts = result@.map_values(|p: AllocationPair| p.first_word_subset@);
            assert(firsts == accepted_all(candidate_pool(hv), tev));
            assert(pair_views(result@) =~~= alloc_pairs_spec(hv, tev)) by {
                assert(pair_views(result@).len() == result@.len());
                assert(alloc_pairs_spec(hv, tev).len() == result@.len());
                assert forall|i: int| 0 <= i < result@.len() implies pair_views(result@)[i]
                    =~~= alloc_pairs_spec(hv, tev)[i] by {
                    assert(pair_views(result@)[i]
                        == (result@[i].first_word_subset@, result@[i].second_word_subset@));
                    assert(alloc_pairs_spec(hv, tev)[i]
                        == (firsts[i], complement_of(hv, firsts[i])));
                    assert(firsts[i] == result@[i].first_word_subset@);
                    assert(result@[i].second_word_subset@
                        == complement_of(hv, result@[i].first_word_subset@));
                }
            }
        }
        result
    }
}

proof fn lemma_accepted_all_membership(cands: Seq<Seq<char>>, te: int)
    ensures
        forall|i: int| 0 <= i < accepted_all(cands, te).len() ==> {
            &&& excess_sum(#[trigger] accepted_all(cands, te)[i]) == te
            &&& cands.contains(accepted_all(cands, te)[i])
        },
    decreases cands.len(),
{
    if cands.len() == 0 {
    } else {
        let prev_cands = cands.drop_last();
        let c = cands.last();
        lemma_accepted_all_membership(prev_cands, te);
        let prev = accepted_all(prev_cands, te);
        assert forall|i: int| 0 <= i < prev.len() implies cands.contains(#[trigger] prev[i]) by {
            assert(prev_cands.contains(prev[i]));
            let q = choose|q: int| 0 <= q < prev_cands.len() && prev_cands[q] == prev[i];
            assert(cands[q] == prev[i]);
        }
        if excess_sum(c) == te && !has_equal_multiset(prev, c) {
            assert(accepted_all(cands, te) == prev.push(c));
            assert(cands[cands.len() - 1] == c);
            assert(cands.contains(c));
        }
    }
}

proof fn lemma_pool_membership(hvl: Seq<char>, n: int)
    ensures
        forall|i: int| 0 <= i < pool_upto(hvl, n).len()
            ==> (#[trigger] pool_upto(hvl, n)[i]).to_multiset().subset_of(hvl.to_multiset()),
    decreases n,
{
    if n <= 0 {
    } else {
        lemma_pool_membership(hvl, n - 1);
        lemma_combinations_elements(hvl, n);
        let prev = pool_upto(hvl, n - 1);
        let tail = combinations_spec(hvl, n);
        assert forall|i: int| 0 <= i < pool_upto(hvl, n).len()
            implies (#[trigger] pool_upto(hvl, n)[i]).to_multiset().subset_of(
            hvl.to_multiset(),
        ) by {
            if i < prev.len() {
                assert(pool_upto(hvl, n)[i] == prev[i]);
            } else {
                assert(pool_upto(hvl, n)[i] == tail[i - prev.len()]);
            }
        }
    }
}

/// Every pair the allocation search emits accounts exactly for the required
/// excess with its first-word subset, and its two subsets together are
/// exactly the higher-value letters: a multiset partition, no letter lost or
/// duplicated.
pub proof fn lemma_allocation_pairs_sound(hvl: Seq<char>, te: int)
    ensures
        forall|i: int| 0 <= i < alloc_pairs_spec(hvl, te).len() ==> {
            let p = #[trigger] alloc_pairs_spec(hvl, te)[i];
            {
                &&& excess_sum(p.0) == te
                &&& p.0.to_multiset().add(p.1.to_multiset()) == hvl.to_multiset()
                &&& p.0.len() + p.1.len() == hvl.len()
            }
        },
{
    broadcast use vstd::seq_lib::group_to_multiset_ensures;
    broadcast use vstd::multiset::group_multiset_axioms;

    if hvl.len() == 0 {
        if te == 0 {
            let p = alloc_pairs_spec(hvl, te)[0];
            assert(p.0 == Seq::<char>::empty() && p.1 == Seq::<char>::empty());
            assert(p.0.to_multiset().len() == 0);
            vstd::multiset::lemma_multiset_empty_len(p.0.to_multiset());
            assert(hvl.to_multiset().len() == 0);
            vstd::multiset::lemma_multiset_empty_len(hvl.to_multiset());
            assert(p.0.to_multiset().add(p.1.to_multiset()) =~= hvl.to_multiset());
        }
    } else {
        let acc = accepted_all(candidate_pool(hvl), te);
        lemma_accepted_all_membership(candidate_pool(hvl), te);
        lemma_pool_membership(hvl, hvl.len() as int);
        assert forall|i: int| 0 <= i < alloc_pairs_spec(hvl, te).len() implies {
            let p = #[trigger] alloc_pairs_spec(hvl, te)[i];
            {
                &&& excess_sum(p.0) == te
                &&& p.0.to_multiset().add(p.1.to_multiset()) == hvl.to_multiset()
                &&& p.0.len() + p.1.len() == hvl.len()
            }
        } by {
            let p = alloc_pairs_spec(hvl, te)[i];
            assert(p == (acc[i], complement_of(hvl, acc[i])));
            assert(candidate_pool(hvl).contains(acc[i]));
            let q = choose|q: int|
                0 <= q < candidate_pool(hvl).len() && candidate_pool(hvl)[q] == acc[i];
            assert(acc[i].to_multiset().subset_of(hvl.to_multiset()));
            lemma_complement_multiset(hvl, acc[i]);
            assert forall|v: char|
                p.0.to_multiset().add(p.1.to_multiset()).count(v)
                    == hvl.to_multiset().count(v) by {
                assert(p.1.to_multiset().add(p.0.to_multiset()).count(v)
                    == hvl.to_multiset().count(v));
            }
            assert(p.0.to_multiset().add(p.1.to_multiset()) =~= hvl.to_multiset());
        }
    }
}

proof fn lemma_accepted_all_distinct(cands: Seq<Seq<char>>, te: int)
    ensures
        forall|i: int, j: int| 0 <= i < j < accepted_all(cands, te).len()
            ==> (#[trigger] accepted_all(cands, te)[i]).to_multiset()
                != (#[trigger] accepted_all(cands, te)[j]).to_multiset(),
    decreases cands.len(),
{
    if cands.len() == 0 {
    } else {
        let prev_cands = cands.drop_last();
        let c = cands.last();
        lemma_accepted_all_distinct(prev_cands, te);
        let prev = accepted_all(prev_cands, te);
        if excess_sum(c) == te && !has_equal_multiset(prev, c) {
            let acc = accepted_all(cands, te);
            assert(acc == prev.push(c));
            assert forall|i: int, j: int| 0 <= i < j < acc.len()
                implies (#[trigger] acc[i]).to_multiset() != (#[trigger] acc[j]).to_multiset()
            by {
                if j < prev.len() {
                    assert(acc[i] == prev[i] && acc[j] == prev[j]);
                } else {
                    assert(acc[j] == c && acc[i] == prev[i]);
                }
            }
        }
    }
}

/// No two pairs the allocation search emits have value-identical first-word
/// subsets: the acceptance pass removes every multiset duplicate.
pub proof fn lemma_allocation_pairs_distinct(hvl: Seq<char>, te: int)
    ensures
        forall|i: int, j: int| 0 <= i < j < alloc_pairs_spec(hvl, te).len()
            ==> (#[trigger] alloc_pairs_spec(hvl, te)[i]).0.to_multiset()
                != (#[trigger] alloc_pairs_spec(hvl, te)[j]).0.to_multiset(),
{
    if hvl.len() == 0 {
    } else {
        lemma_accepted_all_distinct(candidate_pool(hvl), te);
        let acc = accepted_all(candidate_pool(hvl), te);
        assert forall|i: int, j: int| 0 <= i < j < alloc_pairs_spec(hvl, te).len()
            implies (#[trigger] alloc_pairs_spec(hvl, te)[i]).0.to_multiset()
                != (#[trigger] alloc_pairs_spec(hvl, te)[j]).0.to_multiset() by {
            assert(alloc_pairs_spec(hvl, te)[i].0 == acc[i]);
            assert(alloc_pairs_spec(hvl, te)[j].0 == acc[j]);
        }
    }
}

/// The allocation search is deterministic: two runs on the same split and
/// the same higher-value letters emit the same ordered pairs.
pub proof fn lemma_allocation_search_deterministic(
    hvl: Seq<char>,
    te: int,
    r1: Seq<(Seq<char>, Seq<char>)>,
    r2: Seq<(Seq<char>, Seq<char>)>,
)
    requires
        r1 == alloc_pairs_spec(hvl, te),
        r2 == alloc_pairs_spec(hvl, te),
    ensures
        r1 == r2,
{
}

/// Removing the first occurrence of `x`, when `x` first occurs at index `j`,
/// deletes exactly the element at index `j`.
proof fn lemma_remove_first_at_index(s: Seq<char>, x: char, j: int)
    requires
        0 <= j < s.len(),
        s[j] == x,
        forall|k: int| 0 <= k < j ==> s[k] != x,
    ensures
        remove_first(s, x) == s.remove(j),
    decreases j,
{
    if j == 0 {
        assert(remove_first(s, x) == s.drop_first());
        assert(s.drop_first() =~= s.remove(0));
    } else {
        assert(s.first() != x);
        let s1 = s.drop_first();
        assert(s1[j - 1] == x);
        assert(forall|k: int| 0 <= k < j - 1 ==> s1[k] == s[k + 1] && #[trigger] s1[k] != x);
        lemma_remove_first_at_index(s1, x, j - 1);
        assert(remove_first(s, x) == seq![s.first()] + s1.remove(j - 1));
        assert(seq![s.first()] + s1.remove(j - 1) =~= s.remove(j));
    }
}

} // verus!
