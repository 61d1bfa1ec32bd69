use vstd::prelude::*;

verus! {

// ---------------------------------------------------------------------------
// The mathematical model: letter counts of a character sequence.
//
// Only the 26 ASCII letters matter; counting is case-insensitive and every
// other character contributes nothing.
// ---------------------------------------------------------------------------

/// Slot (0 ≤ i < 26) of an ASCII letter, folding case; -1 for any other character.
pub open spec fn letter_index(c: char) -> int {
    let u = c as u32;
    if 65 <= u && u <= 90 {
        u - 65
    } else if 97 <= u && u <= 122 {
        u - 97
    } else {
        -1
    }
}

/// How many characters of `s` fold to letter slot `i`.
pub open spec fn count_letter(s: Seq<char>, i: int) -> nat
    decreases s.len(),
{
    if s.len() == 0 {
        0
    } else {
        count_letter(s.drop_last(), i) + (if letter_index(s.last()) == i {
            1nat
        } else {
            0nat
        })
    }
}

/// The letter multiset of `s`, as 26 counters.
pub open spec fn counts_of(s: Seq<char>) -> Seq<nat> {
    Seq::new(26, |i: int| count_letter(s, i))
}

/// All 26 counters are zero.
pub open spec fn all_zero(c: Seq<nat>) -> bool {
    forall|i: int| 0 <= i < c.len() ==> c[i] == 0
}

/// `a` fits inside `b`: every counter of `a` is at most the matching one of `b`.
pub open spec fn fits(a: Seq<nat>, b: Seq<nat>) -> bool {
    forall|i: int| 0 <= i < 26 ==> a[i] <= b[i]
}

/// Pointwise difference of two 26-counter vectors.
pub open spec fn sub_counts(a: Seq<nat>, b: Seq<nat>) -> Seq<nat> {
    Seq::new(26, |i: int| (a[i] - b[i]) as nat)
}

/// Pointwise sum of two 26-counter vectors.
pub open spec fn add_counts(a: Seq<nat>, b: Seq<nat>) -> Seq<nat> {
    Seq::new(26, |i: int| (a[i] + b[i]) as nat)
}

/// The 26 counters of the empty text.
pub open spec fn zero_counts() -> Seq<nat> {
    Seq::new(26, |i: int| 0nat)
}

/// Total number of letters described by a counter vector.
pub open spec fn total_count(c: Seq<nat>) -> nat
    decreases c.len(),
{
    if c.len() == 0 {
        0
    } else {
        total_count(c.drop_last()) + c.last()
    }
}

/// A counter vector is all zero exactly when its total is zero.
pub proof fn lemma_total_zero(c: Seq<nat>)
    ensures
        all_zero(c) <==> total_count(c) == 0,
    decreases c.len(),
{
    if c.len() > 0 {
        lemma_total_zero(c.drop_last());
        if all_zero(c) {
            assert(all_zero(c.drop_last()));
        }
        if total_count(c) == 0 {
            assert forall|i: int| 0 <= i < c.len() implies c[i] == 0 by {
                if i < c.len() - 1 {
                    assert(c.drop_last()[i] == c[i]);
                }
            }
        }
    }
}

/// Totals add up along a pointwise sum.
pub proof fn lemma_total_pointwise(x: Seq<nat>, y: Seq<nat>, z: Seq<nat>)
    requires
        x.len() == y.len(),
        x.len() == z.len(),
        forall|i: int| 0 <= i < x.len() ==> x[i] == y[i] + z[i],
    ensures
        total_count(x) == total_count(y) + total_count(z),
    decreases x.len(),
{
    if x.len() > 0 {
        assert forall|i: int| 0 <= i < x.len() - 1 implies x.drop_last()[i] == y.drop_last()[i]
            + z.drop_last()[i] by {
            assert(x[i] == y[i] + z[i]);
        }
        lemma_total_pointwise(x.drop_last(), y.drop_last(), z.drop_last());
    }
}

/// Subtracting a fitting vector removes exactly its total.
pub proof fn lemma_total_sub(a: Seq<nat>, b: Seq<nat>)
    requires
        a.len() == 26,
        b.len() == 26,
        fits(b, a),
    ensures
        total_count(sub_counts(a, b)) + total_count(b) == total_count(a),
{
    lemma_total_pointwise(a, sub_counts(a, b), b);
}

// ---------------------------------------------------------------------------
// The executable counter: a fixed array of 26 letter counters.
// ---------------------------------------------------------------------------

/// A fixed-width multiset of letters: one counter per letter a-z.
#[derive(Clone, Copy, Debug, PartialEq, Eq, Hash)]
pub struct LetterFreq {
    pub counts: [usize; 26],
}

impl View for LetterFreq {
    type V = Seq<nat>;

    open spec fn view(&self) -> Seq<nat> {
        Seq::new(26, |i: int| self.counts[i] as nat)
    }
}

impl LetterFreq {
    /// Build a letter frequency from a string, folding case and
    /// ignoring every character that is not an ASCII letter.
    pub fn from_str(s: &str) -> (r: LetterFreq)
        ensures
            r@ == counts_of(s@),
    {
        let mut counts: [usize; 26] = [0; 26];
        let n = s.unicode_len();
        let mut j: usize = 0;
        proof {
            assert(s@.take(0) =~= Seq::<char>::empty());
        }
        while j < n
            invariant
                n == s@.len(),
                j <= n,
                forall|i: int| 0 <= i < 26 ==> counts[i] == count_letter(s@.take(j as int), i),
                forall|i: int| 0 <= i < 26 ==> counts[i] <= j,
            decreases n - j,
        {
            let c = s.get_char(j);
            let u = c as u32;
            if 65 <= u && u <= 90 {
                let slot = (u - 65) as usize;
                counts[slot] = counts[slot] + 1;
            } else if 97 <= u && u <= 122 {
                let slot = (u - 97) as usize;
                counts[slot] = counts[slot] + 1;
            }
            proof {
                let pre = s@.take(j as int);
                let post = s@.take(j + 1 as int);
                assert(post.drop_last() =~= pre);
                assert(post.last() == s@[j as int]);
            }
            j = j + 1;
        }
        let r = LetterFreq { counts };
        proof {
            assert(s@.take(n as int) =~= s@);
            assert(r@ =~= counts_of(s@));
        }
        r
    }

    /// True exactly when no letters are left.
    pub fn is_empty(&self) -> (r: bool)
        ensures
            r == all_zero(self@),
    {
        let mut i: usize = 0;
        while i < 26
            invariant
                i <= 26,
                forall|k: int| 0 <= k < i ==> self@[k] == 0,
            decreases 26 - i,
        {
            if self.counts[i] != 0 {
                assert(self@[i as int] != 0);
                return false;
            }
            i = i + 1;
        }
        true
    }

    /// Reduce each counter of `self` by the matching counter of `other`;
    /// `None` when some counter of `other` exceeds the one of `self`.
    pub fn subtract(&self, other: &LetterFreq) -> (r: Option<LetterFreq>)
        ensures
            r is Some <==> fits(other@, self@),
            r is Some ==> r->Some_0@ == sub_counts(self@, other@),
    {
        let mut result: [usize; 26] = [0; 26];
        let mut i: usize = 0;
        while i < 26
            invariant
                i <= 26,
                forall|k: int| 0 <= k < i ==> other@[k] <= self@[k],
                forall|k: int| 0 <= k < i ==> result[k] as nat == self@[k] - other@[k],
            decreases 26 - i,
        {
            let a = self.counts[i];
            let b = other.counts[i];
            if a < b {
                assert(other@[i as int] > self@[i as int]);
                return None;
            }
            result[i] = a - b;
            i = i + 1;
        }
        let out = LetterFreq { counts: result };
        proof {
            assert(out@ =~= sub_counts(self@, other@));
        }
        Some(out)
    }
}

} // verus!
