use vstd::prelude::*;

use crate::solver::CipherSolver;
use vstd::string::StrSliceExecFns;
use vstd::string::StringExecFns;

verus! {

// ---------------------------------------------------------------------------
// Caesar-shift brute force: rotate the input by every shift from 1 to 25
// and report the rotations that the word list recognizes.
// ---------------------------------------------------------------------------

/// `c` rotated `shift` places through its alphabet, case kept; any other
/// character is unchanged.
pub open spec fn rot_char_s(c: char, shift: u32) -> char {
    let u = c as u32;
    if 97 <= u && u <= 122 {
        (((u - 97 + shift) % 26 + 97) as u8) as char
    } else if 65 <= u && u <= 90 {
        (((u - 65 + shift) % 26 + 65) as u8) as char
    } else {
        c
    }
}

/// A string rotated character by character.
pub open spec fn rot_str(s: Seq<char>, shift: u32) -> Seq<char> {
    s.map_values(|c: char| rot_char_s(c, shift))
}

/// The decimal digit character for `d` (0 to 9).
pub open spec fn digit_char(d: int) -> char {
    if d == 0 {
        '0'
    } else if d == 1 {
        '1'
    } else if d == 2 {
        '2'
    } else if d == 3 {
        '3'
    } else if d == 4 {
        '4'
    } else if d == 5 {
        '5'
    } else if d == 6 {
        '6'
    } else if d == 7 {
        '7'
    } else if d == 8 {
        '8'
    } else {
        '9'
    }
}

/// The decimal text of a shift amount (1 to 25).
pub open spec fn shift_digits(n: int) -> Seq<char> {
    if n < 10 {
        seq![digit_char(n)]
    } else {
        seq![digit_char(n / 10), digit_char(n % 10)]
    }
}

/// The reported entry for a recognized rotation: the decoded word, a
/// space, a plus sign and the shift amount.
pub open spec fn rot_entry(cand: Seq<char>, shift: int) -> Seq<char> {
    cand + seq![' ', '+'] + shift_digits(shift)
}

/// The entries reported for all shifts below `hi`, in increasing shift
/// order.
pub open spec fn rot_solutions_upto(
    words: Seq<Seq<char>>,
    input: Seq<char>,
    hi: int,
) -> Seq<Seq<char>>
    decreases hi,
{
    if hi <= 1 {
        Seq::empty()
    } else {
        let prev = rot_solutions_upto(words, input, hi - 1);
        let cand = rot_str(input, (hi - 1) as u32);
        if words.contains(cand) {
            prev.push(rot_entry(cand, hi - 1))
        } else {
            prev
        }
    }
}

/// The entries reported for all shifts from 1 to 25.
pub open spec fn rot_solutions(words: Seq<Seq<char>>, input: Seq<char>) -> Seq<Seq<char>> {
    rot_solutions_upto(words, input, 26)
}

/// Rotate a single character.
pub fn rotate_char(c: char, shift: u8) -> (r: char)
    requires
        shift < 26,
    ensures
        r == rot_char_s(c, shift as u32),
{
    let u = c as u32;
    if 97 <= u && u <= 122 {
        ((u - 97 + shift as u32) % 26 + 97) as u8 as char
    } else if 65 <= u && u <= 90 {
        ((u - 65 + shift as u32) % 26 + 65) as u8 as char
    } else {
        c
    }
}

/// Relies on String::push: appends the character to the end of the string.
#[verifier::external_body]
fn push_char(s: &mut String, c: char)
    ensures
        final(s)@ == old(s)@.push(c),
{
    s.push(c);
}

/// The decimal digit character.
fn digit_exec(d: u8) -> (r: char)
    requires
        d < 10,
    ensures
        r == digit_char(d as int),
{
    if d == 0 {
        '0'
    } else if d == 1 {
        '1'
    } else if d == 2 {
        '2'
    } else if d == 3 {
        '3'
    } else if d == 4 {
        '4'
    } else if d == 5 {
        '5'
    } else if d == 6 {
        '6'
    } else if d == 7 {
        '7'
    } else if d == 8 {
        '8'
    } else {
        '9'
    }
}

/// Rotate a whole string.
fn rotate_string(input: &str, shift: u8) -> (r: String)
    requires
        shift < 26,
    ensures
        r@ == rot_str(input@, shift as u32),
{
    let mut out = String::new();
    let n = input.unicode_len();
    let mut i: usize = 0;
    proof {
        assert(out@ =~= rot_str(input@.take(0), shift as u32));
    }
    while i < n
        invariant
            n == input@.len(),
            i <= n,
            shift < 26,
            out@ == rot_str(input@.take(i as int), shift as u32),
        decreases n - i,
    {
        let c = input.get_char(i);
        let rc = rotate_char(c, shift);
        push_char(&mut out, rc);
        proof {
            assert(rot_str(input@.take(i + 1), shift as u32) =~= rot_str(
                input@.take(i as int),
                shift as u32,
            ).push(rot_char_s(c, shift as u32)));
        }
        i = i + 1;
    }
    proof {
        assert(input@.take(n as int) =~= input@);
    }
    out
}

/// A brute-force Caesar-shift decoder over a fixed word list.
pub struct RotSolver {
    pub wordset: Vec<String>,
}

impl RotSolver {
    /// Create a decoder that recognizes the words of `wordlist`.
    pub fn new(wordlist: Vec<String>) -> (s: RotSolver)
        ensures
            s.wordset == wordlist,
    {
        RotSolver { wordset: wordlist }
    }

    /// Whether the word list holds a word with exactly this text.
    fn contains_word(&self, cand: &String) -> (r: bool)
        ensures
            r == self.wordset.deep_view().contains(cand@),
    {
        let n = self.wordset.len();
        let mut i: usize = 0;
        while i < n
            invariant
                n == self.wordset@.len(),
                i <= n,
                forall|k: int| 0 <= k < i ==> self.wordset.deep_view()[k] != cand@,
            decreases n - i,
        {
            if self.wordset[i].eq(cand) {
                proof {
                    assert(self.wordset.deep_view()[i as int] == cand@);
                }
                return true;
            }
            i = i + 1;
        }
        proof {
            assert(!self.wordset.deep_view().contains(cand@)) by {
                if self.wordset.deep_view().contains(cand@) {
                    let k = choose|k: int|
                        0 <= k < self.wordset.deep_view().len() && self.wordset.deep_view()[k]
                            == cand@;
                    assert(self.wordset.deep_view()[k] != cand@);
                }
            }
        }
        false
    }

    /// Try every shift from 1 to 25 and report each rotation the word
    /// list recognizes, as "word +shift", in increasing shift order.
    pub fn solve(&self, input: &str) -> (r: Vec<String>)
        ensures
            r.deep_view() == rot_solutions(self.wordset.deep_view(), input@),
    {
        let ghost words = self.wordset.deep_view();
        let mut results: Vec<String> = Vec::new();
        let mut shift: u8 = 1;
        proof {
            assert(results.deep_view() =~= rot_solutions_upto(words, input@, 1));
        }
        while shift < 26
            invariant
                words == self.wordset.deep_view(),
                1 <= shift <= 26,
                results.deep_view() == rot_solutions_upto(words, input@, shift as int),
            decreases 26 - shift,
        {
            let cand = rotate_string(input, shift);
            let ghost candv = cand@;
            if self.contains_word(&cand) {
                let mut entry = cand;
                entry.append(" +");
                proof {
                    reveal_strlit(" +");
                    assert(" +"@ =~= seq![' ', '+']);
                }
                if shift >= 10 {
                    let d1 = digit_exec(shift / 10);
                    push_char(&mut entry, d1);
                    let d2 = digit_exec(shift % 10);
                    push_char(&mut entry, d2);
                } else {
                    let d = digit_exec(shift);
                    push_char(&mut entry, d);
                }
                proof {
                    assert(entry@ =~= rot_entry(candv, shift as int));
                }
                let ghost prevr = results.deep_view();
                results.push(entry);
                proof {
                    assert(results.deep_view() =~= prevr.push(rot_entry(candv, shift as int)));
                }
            }
            shift = shift + 1;
        }
        results
    }
}

impl CipherSolver for RotSolver {
    fn solve(&self, input: &str) -> Vec<String> {
        RotSolver::solve(self, input)
    }
}

} // verus!
