//! The word-length / word-points pair search.
//!
//! Given the inventory's total excess points and the day's target score, the
//! search enumerates every split of the 20 letters into two words (the first
//! word's length drawn from a fixed allowed set) whose combined score equals
//! the target. A target reached by playing all 20 letters as one word at the
//! inventory's full point total short-circuits the two-word search.

use vstd::prelude::*;

verus! {

/// A candidate split: lengths and point totals of the two words.
#[derive(Clone, Copy, Debug, PartialEq, Eq, Structural)]
pub struct Combination {
    pub first_word_length: i32,
    pub first_word_points: i32,
    pub second_word_length: i32,
    pub second_word_points: i32,
}

impl Combination {
    /// The combined score of the two words.
    pub open spec fn spec_score(self) -> int {
        self.first_word_length * self.first_word_points
            + self.second_word_length * self.second_word_points
    }

    /// Field bounds that any split of a 20-letter inventory obeys.
    pub open spec fn wf(self) -> bool {
        &&& 0 <= self.first_word_length <= 20
        &&& self.second_word_length == 20 - self.first_word_length
        &&& 0 <= self.first_word_points <= 200
        &&& 0 <= self.second_word_points <= 200
    }
}

/// The allowed lengths of the first (longer) word: valid two-word splits of
/// 20 letters occur only at these lengths, 20 being the single-word case.
pub open spec fn allowed_first_lengths() -> Seq<int> {
    seq![10, 11, 12, 13, 14, 15, 16, 17, 20]
}

/// The candidate with first-word length `l1` and first-word points `p1`,
/// for an inventory whose excess is `e`: the second word takes the 20 - l1
/// remaining letters and the remaining excess.
pub open spec fn candidate(l1: int, p1: int, e: int) -> Combination {
    Combination {
        first_word_length: l1 as i32,
        first_word_points: p1 as i32,
        second_word_length: (20 - l1) as i32,
        second_word_points: (20 + e - p1) as i32,
    }
}

/// Combined score of `candidate(l1, p1, e)`, over the mathematical integers.
pub open spec fn candidate_score(l1: int, p1: int, e: int) -> int {
    l1 * p1 + (20 - l1) * (20 + e - p1)
}

/// The matching candidates with first-word length `l1` among the first `k`
/// first-word point totals `l1, l1 + 1, ..., l1 + k - 1`, in ascending order.
pub open spec fn matches_upto(l1: int, e: int, t: int, k: int) -> Seq<Combination>
    decreases k,
{
    if k <= 0 {
        Seq::<Combination>::empty()
    } else {
        matches_upto(l1, e, t, k - 1) + (if candidate_score(l1, l1 + k - 1, e) == t {
            seq![candidate(l1, l1 + k - 1, e)]
        } else {
            Seq::<Combination>::empty()
        })
    }
}

/// The matching candidates with first-word length `l1`: the first word's
/// points range over `[l1, l1 + e]`, the achievable totals for `l1` letters
/// with a one-point floor and at most `e` excess points.
pub open spec fn matches_for_length(l1: int, e: int, t: int) -> Seq<Combination> {
    matches_upto(l1, e, t, e + 1)
}

/// The matching candidates for the first `j` allowed first-word lengths,
/// in the order of the allowed set.
pub open spec fn search_upto(e: int, t: int, j: int) -> Seq<Combination>
    decreases j,
{
    if j <= 0 {
        Seq::<Combination>::empty()
    } else {
        search_upto(e, t, j - 1) + matches_for_length(allowed_first_lengths()[j - 1], e, t)
    }
}

/// The single-word split: all 20 letters in one word at the inventory's
/// full point total.
pub open spec fn single_word_combination(e: int) -> Combination {
    Combination {
        first_word_length: 20,
        first_word_points: (20 + e) as i32,
        second_word_length: 0,
        second_word_points: 0,
    }
}

/// What the pair search returns for excess `e` and target `t`: the
/// single-word split alone when all 20 letters at full points reach the
/// target exactly, otherwise the two-word enumeration over all allowed
/// first-word lengths.
pub open spec fn pair_search_spec(e: int, t: int) -> Seq<Combination> {
    if 20 * (20 + e) == t {
        seq![single_word_combination(e)]
    } else {
        search_upto(e, t, allowed_first_lengths().len() as int)
    }
}

/// Enumerate every length/points split of the 20-letter inventory whose
/// combined score equals `target_score`, given the inventory's total excess
/// points. Emission order is first-word length ascending in the allowed set,
/// then first-word points ascending.
pub fn pair_search(points_over_min: i32, target_score: i32) -> (r: Vec<Combination>)
    requires
        0 <= points_over_min <= 180,
    ensures
        r@ == pair_search_spec(points_over_min as int, target_score as int),
{
    let e = points_over_min;
    let t = target_score;
    let mut result: Vec<Combination> = Vec::new();

    if 20 * (20 + e) == t {
        result.push(Combination {
            first_word_length: 20,
            first_word_points: 20 + e,
            second_word_length: 0,
            second_word_points: 0,
        });
        proof {
            assert(result@ =~= seq![single_word_combination(e as int)]);
        }
        return result;
    }

    let first_word_lengths: Vec<i32> = vec![10, 11, 12, 13, 14, 15, 16, 17, 20];
    assert(first_word_lengths@.len() == 9);
    assert(forall|j: int| 0 <= j < 9 ==> first_word_lengths@[j] == allowed_first_lengths()[j]);

    let mut j: usize = 0;
    while j < 9
        invariant
            0 <= j <= 9,
            0 <= e <= 180,
            20 * (20 + e) != t,
            first_word_lengths@.len() == 9,
            forall|jj: int| 0 <= jj < 9 ==> first_word_lengths@[jj] == allowed_first_lengths()[jj],
            result@ == search_upto(e as int, t as int, j as int),
        decreases 9 - j,
    {
        let first_word_length = first_word_lengths[j];
        assert(first_word_length == allowed_first_lengths()[j as int]);
        assert(10 <= first_word_length <= 20);
        let second_word_length = 20 - first_word_length;

        let ghost l1 = first_word_length as int;
        let mut first_word_points = first_word_length;
        while first_word_points <= first_word_length + e
            invariant
                0 <= e <= 180,
                10 <= first_word_length <= 20,
                second_word_length == 20 - first_word_length,
                first_word_length <= first_word_points <= first_word_length + e + 1,
                l1 == first_word_length as int,
                result@ == search_upto(e as int, t as int, j as int)
                    + matches_upto(l1, e as int, t as int,
                        first_word_points - first_word_length as int),
            decreases first_word_length + e + 1 - first_word_points,
        {
            let second_word_points = 20 + e - first_word_points;
            proof {
                assert(0 <= first_word_length * first_word_points <= 4020) by (nonlinear_arith)
                    requires
                        0 <= first_word_length <= 20,
                        0 <= first_word_points <= 201,
                ;
                assert(0 <= second_word_length * second_word_points <= 2010) by (nonlinear_arith)
                    requires
                        0 <= second_word_length <= 10,
                        0 <= second_word_points <= 201,
                ;
            }
            let total_score = first_word_length * first_word_points
                + second_word_length * second_word_points;
            let ghost k = first_word_points - l1 + 1;
            assert(candidate_score(l1, l1 + k - 1, e as int) == total_score);

            if total_score == t {
                result.push(Combination {
                    first_word_length,
                    first_word_points,
                    second_word_length,
                    second_word_points,
                });
                proof {
                    assert(candidate(l1, l1 + k - 1, e as int) == Combination {
                        first_word_length,
                        first_word_points,
                        second_word_length,
                        second_word_points,
                    });
                    assert(result@ =~= search_upto(e as int, t as int, j as int)
                        + matches_upto(l1, e as int, t as int, k));
                }
            } else {
                proof {
                    assert(result@ =~= search_upto(e as int, t as int, j as int)
                        + matches_upto(l1, e as int, t as int, k));
                }
            }
            first_word_points = first_word_points + 1;
        }
        proof {
            assert(result@ =~= search_upto(e as int, t as int, j as int)
                + matches_for_length(l1, e as int, t as int));
            assert(result@ =~= search_upto(e as int, t as int, j as int + 1));
        }
        j = j + 1;
    }
    result
}

/// A combination the two-word enumeration may emit: some allowed first-word
/// length `l1` and some achievable first-word point total `p1` produce it,
/// and its combined score is the target.
pub open spec fn emittable(e: int, t: int, c: Combination) -> bool {
    exists|l1: int, p1: int|
        {
            &&& allowed_first_lengths().contains(l1)
            &&& l1 <= p1 <= l1 + e
            &&& candidate_score(l1, p1, e) == t
            &&& c == candidate(l1, p1, e)
        }
}

proof fn lemma_matches_upto_contains(l1: int, e: int, t: int, k: int, c: Combination)
    ensures
        matches_upto(l1, e, t, k).contains(c) <==> (exists|p1: int|
            {
                &&& l1 <= p1 < l1 + k
                &&& candidate_score(l1, p1, e) == t
                &&& c == candidate(l1, p1, e)
            }),
    decreases k,
{
    if k <= 0 {
    } else {
        lemma_matches_upto_contains(l1, e, t, k - 1, c);
        let prev = matches_upto(l1, e, t, k - 1);
        let tail = if candidate_score(l1, l1 + k - 1, e) == t {
            seq![candidate(l1, l1 + k - 1, e)]
        } else {
            Seq::<Combination>::empty()
        };
        assert(matches_upto(l1, e, t, k) == prev + tail);
        if matches_upto(l1, e, t, k).contains(c) {
            let i = choose|i: int|
                0 <= i < (prev + tail).len() && (prev + tail)[i] == c;
            if i < prev.len() {
                assert(prev[i] == c);
                assert(prev.contains(c));
            } else {
                assert(tail[i - prev.len()] == c);
                assert(c == candidate(l1, l1 + k - 1, e));
                assert(l1 <= l1 + k - 1 < l1 + k && candidate_score(l1, l1 + k - 1, e) == t
                    && c == candidate(l1, l1 + k - 1, e));
            }
        }
        if exists|p1: int|
            {
                &&& l1 <= p1 < l1 + k
                &&& candidate_score(l1, p1, e) == t
                &&& c == candidate(l1, p1, e)
            } {
            let p1 = choose|p1: int|
                {
                    &&& l1 <= p1 < l1 + k
                    &&& candidate_score(l1, p1, e) == t
                    &&& c == candidate(l1, p1, e)
                };
            if p1 < l1 + k - 1 {
                assert(prev.contains(c));
                let i = choose|i: int| 0 <= i < prev.len() && prev[i] == c;
                assert((prev + tail)[i] == c);
            } else {
                assert(tail[0] == c);
                assert((prev + tail)[prev.len() as int] == c);
            }
        }
    }
}

proof fn lemma_search_upto_contains(e: int, t: int, j: int, c: Combination)
    requires
        0 <= j <= 9,
    ensures
        search_upto(e, t, j).contains(c) <==> (exists|jj: int, p1: int|
            {
                &&& 0 <= jj < j
                &&& l1_of(jj) <= p1 <= l1_of(jj) + e
                &&& candidate_score(l1_of(jj), p1, e) == t
                &&& c == candidate(l1_of(jj), p1, e)
            }),
    decreases j,
{
    if j <= 0 {
    } else {
        lemma_search_upto_contains(e, t, j - 1, c);
        let prev = search_upto(e, t, j - 1);
        let tail = matches_for_length(l1_of(j - 1), e, t);
        assert(search_upto(e, t, j) == prev + tail);
        lemma_matches_upto_contains(l1_of(j - 1), e, t, e + 1, c);
        if search_upto(e, t, j).contains(c) {
            let i = choose|i: int|
                0 <= i < (prev + tail).len() && (prev + tail)[i] == c;
            if i < prev.len() {
                assert(prev[i] == c);
                assert(prev.contains(c));
            } else {
                assert(tail[i - prev.len()] == c);
                assert(tail.contains(c));
                let p1 = choose|p1: int|
                    {
                        &&& l1_of(j - 1) <= p1 < l1_of(j - 1) + e + 1
                        &&& candidate_score(l1_of(j - 1), p1, e) == t
                        &&& c == #[trigger] candidate(l1_of(j - 1), p1, e)
                    };
                assert(0 <= j - 1 < j && l1_of(j - 1) <= p1 <= l1_of(j - 1) + e
                    && candidate_score(l1_of(j - 1), p1, e) == t
                    && c == candidate(l1_of(j - 1), p1, e));
            }
        }
        if exists|jj: int, p1: int|
            {
                &&& 0 <= jj < j
                &&& l1_of(jj) <= p1 <= l1_of(jj) + e
                &&& candidate_score(l1_of(jj), p1, e) == t
                &&& c == candidate(l1_of(jj), p1, e)
            } {
            let (jj, p1) = choose|jj: int, p1: int|
                {
                    &&& 0 <= jj < j
                    &&& l1_of(jj) <= p1 <= l1_of(jj) + e
                    &&& candidate_score(l1_of(jj), p1, e) == t
                    &&& c == candidate(l1_of(jj), p1, e)
                };
            if jj < j - 1 {
                assert(prev.contains(c));
                let i = choose|i: int| 0 <= i < prev.len() && prev[i] == c;
                assert((prev + tail)[i] == c);
            } else {
                assert(l1_of(jj) <= p1 < l1_of(jj) + e + 1);
                assert(tail.contains(c));
                let i = choose|i: int| 0 <= i < tail.len() && tail[i] == c;
                assert((prev + tail)[prev.len() + i] == c);
            }
        }
    }
}

/// The first-word length at position `j` of the allowed set.
pub open spec fn l1_of(j: int) -> int {
    allowed_first_lengths()[j]
}

/// Exactly which combinations the pair search emits: when all 20 letters at
/// the inventory's full point total reach the target, the single-word split
/// alone; otherwise precisely those reachable from an allowed first-word
/// length and an achievable first-word point total whose combined score is
/// the target.
pub proof fn lemma_pair_search_characterization(e: int, t: int, c: Combination)
    ensures
        pair_search_spec(e, t).contains(c) <==> (if 20 * (20 + e) == t {
            c == single_word_combination(e)
        } else {
            emittable(e, t, c)
        }),
{
    if 20 * (20 + e) == t {
        assert(pair_search_spec(e, t) == seq![single_word_combination(e)]);
        if c == single_word_combination(e) {
            assert(pair_search_spec(e, t)[0] == c);
        }
        if pair_search_spec(e, t).contains(c) {
            let i = choose|i: int|
                0 <= i < pair_search_spec(e, t).len() && pair_search_spec(e, t)[i] == c;
            assert(i == 0);
        }
    } else {
        lemma_search_upto_contains(e, t, 9, c);
        assert forall|jj: int| 0 <= jj < 9 implies allowed_first_lengths().contains(
            #[trigger] l1_of(jj),
        ) by {
            assert(allowed_first_lengths()[jj] == l1_of(jj));
        }
        if emittable(e, t, c) {
            let (l1, p1) = choose|l1: int, p1: int|
                {
                    &&& allowed_first_lengths().contains(l1)
                    &&& l1 <= p1 <= l1 + e
                    &&& candidate_score(l1, p1, e) == t
                    &&& c == candidate(l1, p1, e)
                };
            let jj = choose|jj: int|
                0 <= jj < allowed_first_lengths().len() && allowed_first_lengths()[jj] == l1;
            assert(l1_of(jj) == l1);
            assert(0 <= jj < 9 && l1_of(jj) <= p1 <= l1_of(jj) + e
                && candidate_score(l1_of(jj), p1, e) == t && c == candidate(l1_of(jj), p1, e));
        }
    }
}

/// Every combination the pair search emits is a well-formed split of the 20
/// letters into two words whose combined score is exactly the target, and
/// whose point totals together carry the floor plus the whole excess.
pub proof fn lemma_pair_search_sound(e: int, t: int)
    requires
        0 <= e <= 180,
    ensures
        forall|i: int| 0 <= i < pair_search_spec(e, t).len() ==> {
            let c = #[trigger] pair_search_spec(e, t)[i];
            {
                &&& c.wf()
                &&& c.first_word_length + c.second_word_length == 20
                &&& c.spec_score() == t
                &&& c.first_word_points + c.second_word_points == 20 + e
            }
        },
{
    assert forall|i: int| 0 <= i < pair_search_spec(e, t).len() implies {
        let c = #[trigger] pair_search_spec(e, t)[i];
        {
            &&& c.wf()
            &&& c.first_word_length + c.second_word_length == 20
            &&& c.spec_score() == t
            &&& c.first_word_points + c.second_word_points == 20 + e
        }
    } by {
        let c = pair_search_spec(e, t)[i];
        assert(pair_search_spec(e, t).contains(c));
        lemma_pair_search_characterization(e, t, c);
        if 20 * (20 + e) == t {
            assert(c == single_word_combination(e));
        } else {
            let (l1, p1) = choose|l1: int, p1: int|
                {
                    &&& allowed_first_lengths().contains(l1)
                    &&& l1 <= p1 <= l1 + e
                    &&& candidate_score(l1, p1, e) == t
                    &&& c == candidate(l1, p1, e)
                };
            let jj = choose|jj: int|
                0 <= jj < allowed_first_lengths().len() && allowed_first_lengths()[jj] == l1;
            assert(10 <= l1 <= 20);
            assert(c.spec_score() == candidate_score(l1, p1, e));
        }
    }
}

/// The pair search is deterministic: two runs on the same excess and the
/// same target return the same ordered sequence.
pub proof fn lemma_pair_search_deterministic(
    e: int,
    t: int,
    r1: Seq<Combination>,
    r2: Seq<Combination>,
)
    requires
        r1 == pair_search_spec(e, t),
        r2 == pair_search_spec(e, t),
    ensures
        r1 == r2,
{
}

} // verus!
