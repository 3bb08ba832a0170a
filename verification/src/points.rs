//! The fixed Scrabble point table for the 26 lowercase letters, and the
//! point sums the search reasons about.

use vstd::prelude::*;

verus! {

/// A playable letter: one of the 26 lowercase ASCII letters.
pub open spec fn is_letter(c: char) -> bool {
    'a' <= c && c <= 'z'
}

/// Every element of the sequence is a playable letter.
pub open spec fn all_letters(s: Seq<char>) -> bool {
    forall|i: int| 0 <= i < s.len() ==> is_letter(#[trigger] s[i])
}

/// The fixed point value of a letter
/// (a=1, b=3, c=3, d=2, e=1, f=4, g=2, h=4, i=1, j=8, k=5, l=1, m=3,
/// n=1, o=1, p=3, q=10, r=1, s=1, t=1, u=1, v=4, w=4, x=8, y=4, z=10).
pub open spec fn spec_point_value(c: char) -> int {
    if c == 'a' { 1 }
    else if c == 'b' { 3 }
    else if c == 'c' { 3 }
    else if c == 'd' { 2 }
    else if c == 'e' { 1 }
    else if c == 'f' { 4 }
    else if c == 'g' { 2 }
    else if c == 'h' { 4 }
    else if c == 'i' { 1 }
    else if c == 'j' { 8 }
    else if c == 'k' { 5 }
    else if c == 'l' { 1 }
    else if c == 'm' { 3 }
    else if c == 'n' { 1 }
    else if c == 'o' { 1 }
    else if c == 'p' { 3 }
    else if c == 'q' { 10 }
    else if c == 'r' { 1 }
    else if c == 's' { 1 }
    else if c == 't' { 1 }
    else if c == 'u' { 1 }
    else if c == 'v' { 4 }
    else if c == 'w' { 4 }
    else if c == 'x' { 8 }
    else if c == 'y' { 4 }
    else { 10 }
}

/// A letter's points above the one-point floor.
pub open spec fn letter_excess(c: char) -> int {
    spec_point_value(c) - 1
}

/// Point values of playable letters lie between 1 and 10.
pub proof fn lemma_point_value_range(c: char)
    requires
        is_letter(c),
    ensures
        1 <= spec_point_value(c) <= 10,
        0 <= letter_excess(c) <= 9,
{
}

/// The point value of a letter, looked up in the fixed table.
pub fn point_value(c: char) -> (p: i32)
    requires
        is_letter(c),
    ensures
        p == spec_point_value(c),
        1 <= p <= 10,
{
    if c == 'a' { 1 }
    else if c == 'b' { 3 }
    else if c == 'c' { 3 }
    else if c == 'd' { 2 }
    else if c == 'e' { 1 }
    else if c == 'f' { 4 }
    else if c == 'g' { 2 }
    else if c == 'h' { 4 }
    else if c == 'i' { 1 }
    else if c == 'j' { 8 }
    else if c == 'k' { 5 }
    else if c == 'l' { 1 }
    else if c == 'm' { 3 }
    else if c == 'n' { 1 }
    else if c == 'o' { 1 }
    else if c == 'p' { 3 }
    else if c == 'q' { 10 }
    else if c == 'r' { 1 }
    else if c == 's' { 1 }
    else if c == 't' { 1 }
    else if c == 'u' { 1 }
    else if c == 'v' { 4 }
    else if c == 'w' { 4 }
    else if c == 'x' { 8 }
    else if c == 'y' { 4 }
    else { 10 }
}

/// Whether a character is a playable letter.
pub fn is_letter_exec(c: char) -> (r: bool)
    ensures
        r == is_letter(c),
{
    'a' <= c && c <= 'z'
}

/// Total point value of a sequence of letters.
pub open spec fn points_sum(s: Seq<char>) -> int
    decreases s.len(),
{
    if s.len() == 0 {
        0
    } else {
        points_sum(s.drop_last()) + spec_point_value(s.last())
    }
}

/// Total excess points (points above the one-point-per-letter floor)
/// of a sequence of letters.
pub open spec fn excess_sum(s: Seq<char>) -> int
    decreases s.len(),
{
    if s.len() == 0 {
        0
    } else {
        excess_sum(s.drop_last()) + letter_excess(s.last())
    }
}

/// The excess sum is the point sum minus one point per letter.
pub proof fn lemma_excess_sum_is_points_sum_minus_len(s: Seq<char>)
    ensures
        excess_sum(s) == points_sum(s) - s.len(),
    decreases s.len(),
{
    if s.len() > 0 {
        lemma_excess_sum_is_points_sum_minus_len(s.drop_last());
    }
}

/// Bounds on the sums over a sequence of playable letters.
pub proof fn lemma_sum_bounds(s: Seq<char>)
    requires
        all_letters(s),
    ensures
        0 <= excess_sum(s) <= 9 * s.len(),
        s.len() <= points_sum(s) <= 10 * s.len(),
    decreases s.len(),
{
    if s.len() > 0 {
        assert(all_letters(s.drop_last())) by {
            assert(forall|i: int|
                0 <= i < s.len() - 1 ==> #[trigger] s.drop_last()[i] == s[i]);
        }
        lemma_sum_bounds(s.drop_last());
        lemma_point_value_range(s.last());
    }
}

/// The excess sum distributes over concatenation.
pub proof fn lemma_excess_sum_concat(a: Seq<char>, b: Seq<char>)
    ensures
        excess_sum(a + b) == excess_sum(a) + excess_sum(b),
    decreases b.len(),
{
    if b.len() == 0 {
        assert(a + b =~= a);
    } else {
        lemma_excess_sum_concat(a, b.drop_last());
        assert((a + b).drop_last() =~= a + b.drop_last());
        assert((a + b).last() == b.last());
    }
}

/// Excess points of a vector of letters.
pub fn excess_points_of(letters: &Vec<char>) -> (r: i32)
    requires
        all_letters(letters@),
        letters@.len() <= 20,
    ensures
        r == excess_sum(letters@),
        0 <= r <= 9 * letters@.len(),
{
    let mut sum: i32 = 0;
    let mut i: usize = 0;
    while i < letters.len()
        invariant
            0 <= i <= letters@.len() <= 20,
            all_letters(letters@),
            sum == excess_sum(letters@.take(i as int)),
            0 <= sum <= 9 * i,
        decreases letters@.len() - i,
    {
        proof {
            assert(letters@.take(i + 1).drop_last() =~= letters@.take(i as int));
            assert(letters@.take(i + 1).last() == letters@[i as int]);
            lemma_point_value_range(letters@[i as int]);
        }
        sum = sum + (point_value(letters[i]) - 1);
        i = i + 1;
    }
    proof {
        assert(letters@.take(letters@.len() as int) =~= letters@);
    }
    sum
}

} // verus!
