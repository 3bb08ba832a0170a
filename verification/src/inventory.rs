//! The daily 20-letter inventory: validation, its excess points, its
//! higher-value letters, and the display form of a letter sequence.

use vstd::prelude::*;

verus! {

use crate::points::{
    all_letters, excess_points_of, excess_sum, is_letter, is_letter_exec,
    lemma_excess_sum_is_points_sum_minus_len, lemma_sum_bounds, point_value, points_sum,
    spec_point_value,
};

/// The ordered multiset of the 20 letters available for the day.
pub struct Inventory {
    pub letters: Vec<char>,
}

impl Inventory {
    /// A valid inventory holds exactly 20 playable letters.
    pub open spec fn wf(self) -> bool {
        self.letters@.len() == 20 && all_letters(self.letters@)
    }

    /// Build an inventory from validated input: exactly 20 lowercase ASCII
    /// letters, otherwise nothing.
    pub fn new(letters: Vec<char>) -> (r: Option<Inventory>)
        ensures
            match r {
                Some(inv) => inv.letters@ == letters@ && inv.wf(),
                None => !(letters@.len() == 20 && all_letters(letters@)),
            },
    {
        if letters.len() != 20 {
            return None;
        }
        let mut i: usize = 0;
        while i < letters.len()
            invariant
                0 <= i <= letters@.len(),
                forall|k: int| 0 <= k < i ==> is_letter(#[trigger] letters@[k]),
            decreases letters@.len() - i,
        {
            if !is_letter_exec(letters[i]) {
                return None;
            }
            i = i + 1;
        }
        Some(Inventory { letters })
    }

    /// The inventory's points above the all-ones floor: the sum of every
    /// letter's point value, minus one point per letter.
    pub fn excess_points(&self) -> (r: i32)
        requires
            self.wf(),
        ensures
            r == excess_sum(self.letters@),
            r == points_sum(self.letters@) - 20,
            0 <= r <= 180,
    {
        proof {
            lemma_excess_sum_is_points_sum_minus_len(self.letters@);
            lemma_sum_bounds(self.letters@);
        }
        excess_points_of(&self.letters)
    }

    /// The sub-multiset of the inventory worth more than one point each,
    /// in inventory order.
    pub fn higher_value_letters(&self) -> (r: Vec<char>)
        requires
            self.wf(),
        ensures
            r@ == higher_value_filter(self.letters@),
            all_letters(r@),
            r@.len() <= 20,
    {
        let mut r: Vec<char> = Vec::new();
        let mut i: usize = 0;
        while i < self.letters.len()
            invariant
                0 <= i <= self.letters@.len() <= 20,
                all_letters(self.letters@),
                r@ == higher_value_filter(self.letters@.take(i as int)),
                all_letters(r@),
                r@.len() <= i,
            decreases self.letters@.len() - i,
        {
            proof {
                assert(self.letters@.take(i + 1).drop_last() =~= self.letters@.take(i as int));
                assert(self.letters@.take(i + 1).last() == self.letters@[i as int]);
            }
            let c = self.letters[i];
            if point_value(c) != 1 {
                r.push(c);
            }
            i = i + 1;
        }
        proof {
            assert(self.letters@.take(self.letters@.len() as int) =~= self.letters@);
        }
        r
    }
}

/// The letters of the inventory whose point value is not one, in order.
pub open spec fn higher_value_filter(s: Seq<char>) -> Seq<char>
    decreases s.len(),
{
    if s.len() == 0 {
        Seq::<char>::empty()
    } else {
        higher_value_filter(s.drop_last()) + (if spec_point_value(s.last()) != 1 {
            seq![s.last()]
        } else {
            Seq::<char>::empty()
        })
    }
}

/// Every letter the filter keeps is a playable letter worth more than one
/// point, and no letters are invented.
pub proof fn lemma_higher_value_filter_props(s: Seq<char>)
    requires
        all_letters(s),
    ensures
        all_letters(higher_value_filter(s)),
        higher_value_filter(s).len() <= s.len(),
        forall|i: int| 0 <= i < higher_value_filter(s).len()
            ==> spec_point_value(#[trigger] higher_value_filter(s)[i]) != 1,
    decreases s.len(),
{
    if s.len() > 0 {
        assert(all_letters(s.drop_last())) by {
            assert(forall|i: int|
                0 <= i < s.len() - 1 ==> #[trigger] s.drop_last()[i] == s[i]);
        }
        lemma_higher_value_filter_props(s.drop_last());
    }
}

/// The whole excess of a letter sequence is carried by its higher-value
/// letters: one-point letters contribute nothing to the sum above the floor.
pub proof fn lemma_excess_carried_by_higher_value_letters(s: Seq<char>)
    ensures
        excess_sum(higher_value_filter(s)) == excess_sum(s),
    decreases s.len(),
{
    if s.len() > 0 {
        lemma_excess_carried_by_higher_value_letters(s.drop_last());
        let prev = higher_value_filter(s.drop_last());
        if spec_point_value(s.last()) != 1 {
            crate::points::lemma_excess_sum_concat(prev, seq![s.last()]);
            assert(excess_sum(seq![s.last()]) == crate::points::letter_excess(s.last())) by {
                assert(seq![s.last()].len() == 1);
                assert(seq![s.last()].drop_last() =~= Seq::<char>::empty());
                assert(excess_sum(Seq::<char>::empty()) == 0);
                assert(excess_sum(seq![s.last()])
                    == excess_sum(seq![s.last()].drop_last())
                    + crate::points::letter_excess(seq![s.last()].last()));
            }
        } else {
            crate::points::lemma_excess_sum_concat(prev, Seq::<char>::empty());
        }
    }
}

/// A letter's display form: lowercase ASCII letters in uppercase, anything
/// else unchanged.
pub open spec fn spec_to_upper(c: char) -> char {
    if c == 'a' { 'A' }
    else if c == 'b' { 'B' }
    else if c == 'c' { 'C' }
    else if c == 'd' { 'D' }
    else if c == 'e' { 'E' }
    else if c == 'f' { 'F' }
    else if c == 'g' { 'G' }
    else if c == 'h' { 'H' }
    else if c == 'i' { 'I' }
    else if c == 'j' { 'J' }
    else if c == 'k' { 'K' }
    else if c == 'l' { 'L' }
    else if c == 'm' { 'M' }
    else if c == 'n' { 'N' }
    else if c == 'o' { 'O' }
    else if c == 'p' { 'P' }
    else if c == 'q' { 'Q' }
    else if c == 'r' { 'R' }
    else if c == 's' { 'S' }
    else if c == 't' { 'T' }
    else if c == 'u' { 'U' }
    else if c == 'v' { 'V' }
    else if c == 'w' { 'W' }
    else if c == 'x' { 'X' }
    else if c == 'y' { 'Y' }
    else if c == 'z' { 'Z' }
    else { c }
}

/// The display form of a letter sequence: each letter uppercased and
/// followed by a space.
pub open spec fn display_spec(s: Seq<char>) -> Seq<char>
    decreases s.len(),
{
    if s.len() == 0 {
        Seq::<char>::empty()
    } else {
        display_spec(s.drop_last()) + seq![spec_to_upper(s.last()), ' ']
    }
}

/// Uppercase a lowercase ASCII letter; leave any other character unchanged.
fn to_upper(c: char) -> (r: char)
    ensures
        r == spec_to_upper(c),
{
    if c == 'a' { 'A' }
    else if c == 'b' { 'B' }
    else if c == 'c' { 'C' }
    else if c == 'd' { 'D' }
    else if c == 'e' { 'E' }
    else if c == 'f' { 'F' }
    else if c == 'g' { 'G' }
    else if c == 'h' { 'H' }
    else if c == 'i' { 'I' }
    else if c == 'j' { 'J' }
    else if c == 'k' { 'K' }
    else if c == 'l' { 'L' }
    else if c == 'm' { 'M' }
    else if c == 'n' { 'N' }
    else if c == 'o' { 'O' }
    else if c == 'p' { 'P' }
    else if c == 'q' { 'Q' }
    else if c == 'r' { 'R' }
    else if c == 's' { 'S' }
    else if c == 't' { 'T' }
    else if c == 'u' { 'U' }
    else if c == 'v' { 'V' }
    else if c == 'w' { 'W' }
    else if c == 'x' { 'X' }
    else if c == 'y' { 'Y' }
    else if c == 'z' { 'Z' }
    else { c }
}

/// Relies on String::push: it appends the given character to the end of the
/// string.
#[verifier::external_body]
fn push_char(s: &mut String, c: char)
    ensures
        final(s)@ == old(s)@.push(c),
{
    s.push(c);
}

/// The display form of a letter vector: each letter uppercased and followed
/// by a space.
pub fn display_letters(letters_vector: &Vec<char>) -> (r: String)
    ensures
        r@ == display_spec(letters_vector@),
{
    let mut letter_display = String::new();
    let mut i: usize = 0;
    while i < letters_vector.len()
        invariant
            0 <= i <= letters_vector@.len(),
            letter_display@ == display_spec(letters_vector@.take(i as int)),
        decreases letters_vector@.len() - i,
    {
        proof {
            assert(letters_vector@.take(i + 1).drop_last()
                =~= letters_vector@.take(i as int));
            assert(letters_vector@.take(i + 1).last() == letters_vector@[i as int]);
        }
        let ghost before = letter_display@;
        push_char(&mut letter_display, to_upper(letters_vector[i]));
        push_char(&mut letter_display, ' ');
        proof {
            assert(letter_display@ =~= before
                + seq![spec_to_upper(letters_vector@[i as int]), ' ']);
        }
        i = i + 1;
    }
    proof {
        assert(letters_vector@.take(letters_vector@.len() as int) =~= letters_vector@);
    }
    letter_display
}

} // verus!
