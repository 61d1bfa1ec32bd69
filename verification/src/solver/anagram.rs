use vstd::prelude::*;

use crate::solver::letters::{
    add_counts, all_zero, counts_of, fits, lemma_total_sub, lemma_total_zero, sub_counts,
    total_count, zero_counts, LetterFreq,
};
use vstd::string::StrSliceExecFns;
use vstd::string::StringExecFns;
use vstd::utf8::encode_utf8;

verus! {

// ---------------------------------------------------------------------------
// Candidate words.
// ---------------------------------------------------------------------------

/// A candidate word together with its letter frequency.
#[derive(Debug)]
pub struct Word {
    pub text: String,
    pub freq: LetterFreq,
}

impl Word {
    /// The stored frequency is exactly the letter multiset of the text.
    pub open spec fn wf(&self) -> bool {
        self.freq@ == counts_of(self.text@)
    }
}

/// The texts of a word list, as character sequences.
pub open spec fn texts(ws: Seq<Word>) -> Seq<Seq<char>> {
    ws.map_values(|w: Word| w.text@)
}

// ---------------------------------------------------------------------------
// The validity filter: solutions of more than 3 words may not be dominated
// by short words (byte length at most 3).
// ---------------------------------------------------------------------------

/// A short word: at most three bytes of text.
pub open spec fn short_word(w: Seq<char>) -> bool {
    encode_utf8(w).len() <= 3
}

/// How many words of the solution are short.
pub open spec fn short_count(ws: Seq<Seq<char>>) -> nat
    decreases ws.len(),
{
    if ws.len() == 0 {
        0
    } else {
        short_count(ws.drop_last()) + (if short_word(ws.last()) {
            1nat
        } else {
            0nat
        })
    }
}

/// Solutions of at most 3 words always pass; longer ones pass only when
/// at most half of their words are short.
pub open spec fn valid_solution(ws: Seq<Seq<char>>) -> bool {
    ws.len() > 3 ==> short_count(ws) <= ws.len() / 2
}

/// Filter function that excludes solutions containing too many short words.
pub fn is_valid_solution(solution: &Vec<String>) -> (r: bool)
    ensures
        r == valid_solution(solution.deep_view()),
{
    let n = solution.len();
    let mut shorts: usize = 0;
    let mut k: usize = 0;
    proof {
        assert(solution.deep_view().take(0) =~= Seq::<Seq<char>>::empty());
    }
    while k < n
        invariant
            n == solution@.len(),
            n == solution.deep_view().len(),
            k <= n,
            shorts == short_count(solution.deep_view().take(k as int)),
            shorts <= k,
        decreases n - k,
    {
        let bytes = solution[k].as_str().as_bytes_vec();
        proof {
            let pre = solution.deep_view().take(k as int);
            let post = solution.deep_view().take(k + 1 as int);
            assert(post.drop_last() =~= pre);
            assert(post.last() == solution.deep_view()[k as int]);
            assert(bytes@ == encode_utf8(solution.deep_view()[k as int]));
        }
        if bytes.len() <= 3 {
            shorts = shorts + 1;
        }
        k = k + 1;
    }
    proof {
        assert(solution.deep_view().take(n as int) =~= solution.deep_view());
    }
    if n > 3 {
        shorts <= n / 2
    } else {
        true
    }
}

// ---------------------------------------------------------------------------
// Candidate order: descending byte length, ties broken by ascending
// lexicographic order on the characters.
// ---------------------------------------------------------------------------

/// Lexicographic order on character sequences (by code point; a proper
/// prefix comes first).
pub open spec fn chars_le(a: Seq<char>, b: Seq<char>) -> bool
    decreases a.len(),
{
    if a.len() == 0 {
        true
    } else if b.len() == 0 {
        false
    } else if a[0] == b[0] {
        chars_le(a.drop_first(), b.drop_first())
    } else {
        (a[0] as u32) < (b[0] as u32)
    }
}

/// The candidate order: longer texts first, equal lengths in
/// lexicographic order.
pub open spec fn word_le_v(a: Seq<char>, b: Seq<char>) -> bool {
    let la = encode_utf8(a).len();
    let lb = encode_utf8(b).len();
    la > lb || (la == lb && chars_le(a, b))
}

/// When the first `k` characters agree and `a` ends there, `a` comes first.
proof fn lemma_chars_le_prefix(a: Seq<char>, b: Seq<char>, k: int)
    requires
        0 <= k <= b.len(),
        k == a.len(),
        forall|i: int| 0 <= i < k ==> a[i] == b[i],
    ensures
        chars_le(a, b),
    decreases k,
{
    if k > 0 {
        assert(a[0] == b[0]);
        assert forall|i: int| 0 <= i < k - 1 implies a.drop_first()[i] == b.drop_first()[i] by {
            assert(a[i + 1] == b[i + 1]);
        }
        lemma_chars_le_prefix(a.drop_first(), b.drop_first(), k - 1);
    }
}

/// When the first `k` characters agree and `b` ends there while `a` goes on,
/// `a` comes after `b`.
proof fn lemma_chars_gt_prefix(a: Seq<char>, b: Seq<char>, k: int)
    requires
        0 <= k < a.len(),
        k == b.len(),
        forall|i: int| 0 <= i < k ==> a[i] == b[i],
    ensures
        !chars_le(a, b),
    decreases k,
{
    if k > 0 {
        assert(a[0] == b[0]);
        assert forall|i: int| 0 <= i < k - 1 implies a.drop_first()[i] == b.drop_first()[i] by {
            assert(a[i + 1] == b[i + 1]);
        }
        lemma_chars_gt_prefix(a.drop_first(), b.drop_first(), k - 1);
    }
}

/// When the first `k` characters agree and position `k` differs, that
/// position decides the order.
proof fn lemma_chars_le_diff(a: Seq<char>, b: Seq<char>, k: int)
    requires
        0 <= k < a.len(),
        k < b.len(),
        forall|i: int| 0 <= i < k ==> a[i] == b[i],
        a[k] != b[k],
    ensures
        chars_le(a, b) == ((a[k] as u32) < (b[k] as u32)),
    decreases k,
{
    if k > 0 {
        assert(a[0] == b[0]);
        assert forall|i: int| 0 <= i < k - 1 implies a.drop_first()[i] == b.drop_first()[i] by {
            assert(a[i + 1] == b[i + 1]);
        }
        assert(a.drop_first()[k - 1] == a[k]);
        assert(b.drop_first()[k - 1] == b[k]);
        lemma_chars_le_diff(a.drop_first(), b.drop_first(), k - 1);
    }
}

/// Compare two candidate words in the candidate order.
fn word_le_exec(a: &Word, b: &Word) -> (r: bool)
    ensures
        r == word_le_v(a.text@, b.text@),
{
    let ab = a.text.as_str().as_bytes_vec();
    let bb = b.text.as_str().as_bytes_vec();
    let la = ab.len();
    let lb = bb.len();
    if la != lb {
        return la > lb;
    }
    let ca = a.text.as_str().unicode_len();
    let cb = b.text.as_str().unicode_len();
    let mut k: usize = 0;
    while k < ca && k < cb
        invariant
            ca == a.text@.len(),
            cb == b.text@.len(),
            k <= ca,
            k <= cb,
            la == encode_utf8(a.text@).len(),
            lb == encode_utf8(b.text@).len(),
            la == lb,
            forall|i: int| 0 <= i < k ==> a.text@[i] == b.text@[i],
        decreases ca - k,
    {
        let x = a.text.as_str().get_char(k);
        let y = b.text.as_str().get_char(k);
        let xu = x as u32;
        let yu = y as u32;
        if xu != yu {
            proof {
                lemma_chars_le_diff(a.text@, b.text@, k as int);
            }
            return xu < yu;
        }
        proof {
            assert(a.text@[k as int] as u32 == b.text@[k as int] as u32);
            assert(a.text@[k as int] == b.text@[k as int]);
        }
        k = k + 1;
    }
    if ca <= cb {
        proof {
            lemma_chars_le_prefix(a.text@, b.text@, ca as int);
        }
        true
    } else {
        proof {
            lemma_chars_gt_prefix(a.text@, b.text@, cb as int);
        }
        false
    }
}

// ---------------------------------------------------------------------------
// Candidate selection: keep the words that fit inside the target and
// contribute at least one letter, then sort them in the candidate order.
// ---------------------------------------------------------------------------

/// The words that fit inside `target` and have a nonempty letter multiset,
/// in dictionary order.
pub open spec fn filter_fits(words: Seq<Seq<char>>, target: Seq<nat>) -> Seq<Seq<char>>
    decreases words.len(),
{
    if words.len() == 0 {
        Seq::empty()
    } else {
        let rest = filter_fits(words.drop_last(), target);
        let w = words.last();
        if fits(counts_of(w), target) && !all_zero(counts_of(w)) {
            rest.push(w)
        } else {
            rest
        }
    }
}

/// Insert `w` into the sorted sequence `s`, after every word that
/// precedes it in the candidate order.
pub open spec fn insert_sorted(w: Seq<char>, s: Seq<Seq<char>>) -> Seq<Seq<char>>
    decreases s.len(),
{
    if s.len() == 0 {
        seq![w]
    } else if word_le_v(s[0], w) {
        seq![s[0]] + insert_sorted(w, s.drop_first())
    } else {
        seq![w] + s
    }
}

/// Sort a word sequence in the candidate order by repeated insertion.
pub open spec fn sort_words(s: Seq<Seq<char>>) -> Seq<Seq<char>>
    decreases s.len(),
{
    if s.len() == 0 {
        Seq::empty()
    } else {
        insert_sorted(s.last(), sort_words(s.drop_last()))
    }
}

/// Inserting at the first position whose word does not precede `w`
/// is what `insert_sorted` does.
proof fn lemma_insert_at(w: Seq<char>, s: Seq<Seq<char>>, pos: int)
    requires
        0 <= pos <= s.len(),
        forall|i: int| 0 <= i < pos ==> word_le_v(#[trigger] s[i], w),
        pos < s.len() ==> !word_le_v(s[pos], w),
    ensures
        insert_sorted(w, s) == s.take(pos) + seq![w] + s.skip(pos),
    decreases s.len(),
{
    if s.len() == 0 {
        assert(insert_sorted(w, s) =~= s.take(pos) + seq![w] + s.skip(pos));
    } else if pos == 0 {
        assert(s.take(0) + seq![w] + s.skip(0) =~= seq![w] + s);
    } else {
        let s1 = s.drop_first();
        assert(word_le_v(s[0], w));
        assert forall|i: int| 0 <= i < pos - 1 implies word_le_v(#[trigger] s1[i], w) by {
            assert(s1[i] == s[i + 1]);
        }
        assert(pos - 1 < s1.len() ==> !word_le_v(s1[pos - 1], w));
        lemma_insert_at(w, s1, pos - 1);
        assert(seq![s[0]] + (s1.take(pos - 1) + seq![w] + s1.skip(pos - 1)) =~= s.take(pos)
            + seq![w] + s.skip(pos));
    }
}

/// An element of `insert_sorted(w, s)` is `w` or an element of `s`.
pub proof fn lemma_insert_sorted_elem(w: Seq<char>, s: Seq<Seq<char>>, x: Seq<char>)
    requires
        insert_sorted(w, s).contains(x),
    ensures
        x == w || s.contains(x),
    decreases s.len(),
{
    let t = insert_sorted(w, s);
    let j = choose|j: int| 0 <= j < t.len() && t[j] == x;
    if s.len() == 0 {
        assert(t[j] == w);
    } else if word_le_v(s[0], w) {
        let rest = insert_sorted(w, s.drop_first());
        if j == 0 {
            assert(s[0] == x);
        } else {
            assert(rest[j - 1] == x);
            assert(rest.contains(x));
            lemma_insert_sorted_elem(w, s.drop_first(), x);
            if x != w {
                let i = choose|i: int| 0 <= i < s.drop_first().len() && s.drop_first()[i] == x;
                assert(s[i + 1] == x);
            }
        }
    } else {
        if j > 0 {
            assert(s[j - 1] == x);
        }
    }
}

/// An element of `sort_words(s)` is an element of `s`.
pub proof fn lemma_sort_words_elem(s: Seq<Seq<char>>, x: Seq<char>)
    requires
        sort_words(s).contains(x),
    ensures
        s.contains(x),
    decreases s.len(),
{
    if s.len() > 0 {
        lemma_insert_sorted_elem(s.last(), sort_words(s.drop_last()), x);
        if x == s.last() {
            assert(s[s.len() - 1] == x);
        } else {
            lemma_sort_words_elem(s.drop_last(), x);
            let i = choose|i: int| 0 <= i < s.drop_last().len() && s.drop_last()[i] == x;
            assert(s[i] == x);
        }
    }
}

/// An element of `filter_fits(words, target)` comes from `words`, fits
/// inside `target` and has a nonempty letter multiset.
pub proof fn lemma_filter_fits_elem(words: Seq<Seq<char>>, target: Seq<nat>, x: Seq<char>)
    requires
        filter_fits(words, target).contains(x),
    ensures
        words.contains(x),
        fits(counts_of(x), target),
        !all_zero(counts_of(x)),
    decreases words.len(),
{
    if words.len() > 0 {
        let f = filter_fits(words, target);
        let fd = filter_fits(words.drop_last(), target);
        let wlast = words.last();
        let j = choose|j: int| 0 <= j < f.len() && f[j] == x;
        if fits(counts_of(wlast), target) && !all_zero(counts_of(wlast)) && j == fd.len() {
            assert(x == wlast);
            assert(words[words.len() - 1] == x);
        } else {
            assert(fd[j] == x);
            assert(fd.contains(x));
            lemma_filter_fits_elem(words.drop_last(), target, x);
            let i = choose|i: int| 0 <= i < words.drop_last().len() && words.drop_last()[i] == x;
            assert(words[i] == x);
        }
    }
}

// ---------------------------------------------------------------------------
// The abstract search machine.
//
// A search state is a stack of frames (remaining letters, next candidate
// cursor) together with the path of chosen candidate indices.  `outputs`
// gives the exact sequence of solutions the depth-first search still emits
// from such a state; the executable iterator below is proved to produce
// precisely this sequence.
// ---------------------------------------------------------------------------

/// Every candidate contributes at least one letter.
pub open spec fn cands_ok(cands: Seq<Seq<char>>) -> bool {
    forall|j: int| 0 <= j < cands.len() ==> !all_zero(counts_of(#[trigger] cands[j]))
}

/// Every frame has a cursor within bounds and 26 letter counters.
pub open spec fn frames_ok(cands: Seq<Seq<char>>, stack: Seq<(Seq<nat>, int)>) -> bool {
    forall|k: int|
        0 <= k < stack.len() ==> 0 <= (#[trigger] stack[k]).1 <= cands.len() && stack[k].0.len()
            == 26
}

/// The words chosen along a path of candidate indices.
pub open spec fn path_solution(cands: Seq<Seq<char>>, path: Seq<int>) -> Seq<Seq<char>> {
    path.map_values(|j: int| cands[j])
}

/// The combined letter counters consumed along a path.
pub open spec fn path_counts(cands: Seq<Seq<char>>, path: Seq<int>) -> Seq<nat>
    decreases path.len(),
{
    if path.len() == 0 {
        zero_counts()
    } else {
        add_counts(path_counts(cands, path.drop_last()), counts_of(cands[path.last()]))
    }
}

/// The combined letter counters of a solution's words.
pub open spec fn solution_counts(ws: Seq<Seq<char>>) -> Seq<nat>
    decreases ws.len(),
{
    if ws.len() == 0 {
        zero_counts()
    } else {
        add_counts(solution_counts(ws.drop_last()), counts_of(ws.last()))
    }
}

/// An upper bound on the number of search steps from a fresh frame whose
/// remaining letters total `t`, with `n` candidates.
pub open spec fn tree_cap(n: nat, t: nat) -> nat
    decreases t,
{
    if t == 0 {
        1
    } else {
        (n + 1) * (tree_cap(n, (t - 1) as nat) + 1)
    }
}

/// The step bound is at least one.
proof fn lemma_tree_cap_pos(n: nat, t: nat)
    ensures
        tree_cap(n, t) >= 1,
    decreases t,
{
    if t > 0 {
        lemma_tree_cap_pos(n, (t - 1) as nat);
        assert((n + 1) * (tree_cap(n, (t - 1) as nat) + 1) >= tree_cap(n, (t - 1) as nat) + 1)
            by (nonlinear_arith)
            requires
                n >= 0,
                tree_cap(n, (t - 1) as nat) >= 1,
        ;
    }
}

/// An upper bound on the search steps a single frame still causes.
pub open spec fn frame_weight(n: nat, fr: (Seq<nat>, int)) -> nat {
    let t = total_count(fr.0);
    if t == 0 {
        1
    } else if 0 <= fr.1 && fr.1 <= n {
        ((n - fr.1) as nat) * (tree_cap(n, (t - 1) as nat) + 1) + 1
    } else {
        1
    }
}

/// An upper bound on the search steps a whole stack still causes.
pub open spec fn stack_measure(n: nat, stack: Seq<(Seq<nat>, int)>) -> nat
    decreases stack.len(),
{
    if stack.len() == 0 {
        0
    } else {
        stack_measure(n, stack.drop_last()) + frame_weight(n, stack.last())
    }
}

/// The step bound grows with the number of remaining letters.
proof fn lemma_tree_cap_mono(n: nat, t1: nat, t2: nat)
    requires
        t1 <= t2,
    ensures
        tree_cap(n, t1) <= tree_cap(n, t2),
    decreases t2,
{
    if t1 < t2 {
        lemma_tree_cap_mono(n, t1, (t2 - 1) as nat);
        assert((n + 1) * (tree_cap(n, (t2 - 1) as nat) + 1) >= tree_cap(n, (t2 - 1) as nat) + 1)
            by (nonlinear_arith)
            requires
                n >= 0,
                tree_cap(n, (t2 - 1) as nat) >= 0,
        ;
    }
}

/// Every frame weighs at least one step.
proof fn lemma_frame_weight_pos(n: nat, fr: (Seq<nat>, int))
    ensures
        frame_weight(n, fr) >= 1,
{
}

/// The solutions still to be emitted from a search state, in emission order.
pub open spec fn outputs(
    cands: Seq<Seq<char>>,
    stack: Seq<(Seq<nat>, int)>,
    path: Seq<int>,
) -> Seq<Seq<Seq<char>>>
    decreases stack_measure(cands.len(), stack),
        when cands_ok(cands) && frames_ok(cands, stack)
        via outputs_decreases
{
    if stack.len() == 0 {
        Seq::empty()
    } else {
        let top = stack.last();
        let rem = top.0;
        let cur = top.1;
        let popped = stack.drop_last();
        let path1 = if path.len() > 0 {
            path.drop_last()
        } else {
            path
        };
        if all_zero(rem) {
            let sol = path_solution(cands, path);
            if valid_solution(sol) {
                seq![sol] + outputs(cands, popped, path1)
            } else {
                outputs(cands, popped, path1)
            }
        } else if cur < cands.len() {
            let advanced = stack.update(stack.len() - 1, (rem, cur + 1));
            let cfreq = counts_of(cands[cur]);
            if fits(cfreq, rem) {
                outputs(cands, advanced.push((sub_counts(rem, cfreq), 0int)), path.push(cur))
            } else {
                outputs(cands, advanced, path)
            }
        } else {
            outputs(cands, popped, path1)
        }
    }
}

#[via_fn]
proof fn outputs_decreases(cands: Seq<Seq<char>>, stack: Seq<(Seq<nat>, int)>, path: Seq<int>) {
    let n = cands.len();
    if stack.len() > 0 {
        lemma_measure_pop(n, stack);
        if !all_zero(stack.last().0) && stack.last().1 < cands.len() {
            lemma_step_measures(cands, stack);
        }
    }
}

/// Popping the top frame lowers the measure.
proof fn lemma_measure_pop(n: nat, stack: Seq<(Seq<nat>, int)>)
    requires
        stack.len() > 0,
    ensures
        stack_measure(n, stack.drop_last()) < stack_measure(n, stack),
{
    lemma_frame_weight_pos(n, stack.last());
}

/// Advancing the top cursor lowers the measure, also when a new frame with
/// the subtracted letters is pushed on top.
proof fn lemma_step_measures(cands: Seq<Seq<char>>, stack: Seq<(Seq<nat>, int)>)
    requires
        cands_ok(cands),
        frames_ok(cands, stack),
        stack.len() > 0,
        !all_zero(stack.last().0),
        stack.last().1 < cands.len(),
    ensures
        ({
            let rem = stack.last().0;
            let cur = stack.last().1;
            let advanced = stack.update(stack.len() - 1, (rem, cur + 1));
            let cfreq = counts_of(cands[cur]);
            &&& stack_measure(cands.len(), advanced) < stack_measure(cands.len(), stack)
            &&& (fits(cfreq, rem) ==> stack_measure(
                cands.len(),
                advanced.push((sub_counts(rem, cfreq), 0int)),
            ) < stack_measure(cands.len(), stack))
        }),
{
    let n = cands.len();
    let top = stack.last();
    let rem = top.0;
    let cur = top.1;
    lemma_frame_weight_pos(n, top);
    assert(stack_measure(n, stack) == stack_measure(n, stack.drop_last()) + frame_weight(n, top));
    let t = total_count(rem);
    lemma_total_zero(rem);
    assert(t >= 1);
    let cap = tree_cap(n, (t - 1) as nat) + 1;
    let advanced = stack.update(stack.len() - 1, (rem, cur + 1));
    assert(advanced.drop_last() =~= stack.drop_last());
    assert(advanced.last() == (rem, cur + 1));
    assert(((n - cur) as nat) * cap == ((n - (cur + 1)) as nat) * cap + cap)
        by (nonlinear_arith)
        requires
            0 <= cur < n,
            cap >= 1,
    ;
    assert(frame_weight(n, (rem, cur + 1)) + cap == frame_weight(n, top));
    assert(stack_measure(n, advanced) == stack_measure(n, stack.drop_last()) + frame_weight(
        n,
        (rem, cur + 1),
    ));
    let cfreq = counts_of(cands[cur]);
    if fits(cfreq, rem) {
        let sub = sub_counts(rem, cfreq);
        assert(!all_zero(cfreq));
        lemma_total_zero(cfreq);
        lemma_total_sub(rem, cfreq);
        let t1 = total_count(sub);
        assert(t1 < t);
        let pushed = advanced.push((sub, 0int));
        assert(pushed.drop_last() =~= advanced);
        assert(pushed.last() == (sub, 0int));
        lemma_tree_cap_pos(n, t1);
        if t1 == 0 {
            assert(frame_weight(n, (sub, 0int)) == 1);
            assert(tree_cap(n, t1) == 1);
        } else {
            assert(frame_weight(n, (sub, 0int)) == n * (tree_cap(n, (t1 - 1) as nat) + 1) + 1);
            assert(n * (tree_cap(n, (t1 - 1) as nat) + 1) + 1 <= (n + 1) * (tree_cap(
                n,
                (t1 - 1) as nat,
            ) + 1))
                by (nonlinear_arith)
                requires
                    n >= 0,
                    tree_cap(n, (t1 - 1) as nat) >= 0,
            ;
            assert(frame_weight(n, (sub, 0int)) <= tree_cap(n, t1));
        }
        lemma_tree_cap_mono(n, t1, (t - 1) as nat);
        assert(frame_weight(n, (sub, 0int)) <= tree_cap(n, (t - 1) as nat));
        assert(stack_measure(n, pushed) == stack_measure(n, advanced) + frame_weight(
            n,
            (sub, 0int),
        ));
        assert(stack_measure(n, pushed) < stack_measure(n, stack));
    }
}

/// Mapping to abstract frames commutes with dropping the last frame.
proof fn lemma_abs_frames_drop(stack: Seq<SearchFrame>)
    requires
        stack.len() > 0,
    ensures
        abs_frames(stack.drop_last()) == abs_frames(stack).drop_last(),
{
    assert(abs_frames(stack.drop_last()) =~= abs_frames(stack).drop_last());
}

/// Mapping to abstract indices commutes with dropping the last index.
proof fn lemma_abs_path_drop(path: Seq<usize>)
    requires
        path.len() > 0,
    ensures
        abs_path(path.drop_last()) == abs_path(path).drop_last(),
{
    assert(abs_path(path.drop_last()) =~= abs_path(path).drop_last());
}

/// The letters of the words on a path are the letters the path consumed.
proof fn lemma_solution_counts_path(cands: Seq<Seq<char>>, path: Seq<int>)
    ensures
        solution_counts(path_solution(cands, path)) == path_counts(cands, path),
    decreases path.len(),
{
    if path.len() > 0 {
        lemma_solution_counts_path(cands, path.drop_last());
        assert(path_solution(cands, path).drop_last() =~= path_solution(cands, path.drop_last()));
        assert(path_solution(cands, path).last() == cands[path.last()]);
    }
}

/// The solutions the engine emits for `phrase` over dictionary `words`.
pub open spec fn engine_outputs(words: Seq<Seq<char>>, phrase: Seq<char>) -> Seq<Seq<Seq<char>>> {
    let target = counts_of(phrase);
    outputs(sort_words(filter_fits(words, target)), seq![(target, 0int)], Seq::empty())
}

/// A solution's words joined with single spaces.
pub open spec fn join_words(ws: Seq<Seq<char>>) -> Seq<char>
    decreases ws.len(),
{
    if ws.len() == 0 {
        Seq::empty()
    } else if ws.len() == 1 {
        ws[0]
    } else {
        join_words(ws.drop_last()) + seq![' '] + ws.last()
    }
}

/// What `solve` returns: every solution for `phrase` over `words`, each
/// joined with spaces, in emission order.
pub open spec fn solve_spec(words: Seq<Seq<char>>, phrase: Seq<char>) -> Seq<Seq<char>> {
    engine_outputs(words, phrase).map_values(|ws: Seq<Seq<char>>| join_words(ws))
}

// ---------------------------------------------------------------------------
// The executable engine.
// ---------------------------------------------------------------------------

/// One level of the explicit depth-first search stack.
#[derive(Clone, Copy, Debug)]
pub struct SearchFrame {
    pub remaining: LetterFreq,
    pub cursor: usize,
}

/// The abstraction of an executable frame stack.
pub open spec fn abs_frames(stack: Seq<SearchFrame>) -> Seq<(Seq<nat>, int)> {
    stack.map_values(|f: SearchFrame| (f.remaining@, f.cursor as int))
}

/// The abstraction of an executable index path.
pub open spec fn abs_path(path: Seq<usize>) -> Seq<int> {
    path.map_values(|u: usize| u as int)
}

/// The anagram solver: a dictionary with precomputed letter frequencies.
pub struct AnagramSolver {
    pub words: Vec<Word>,
}

/// An iterator that yields anagram solutions one by one.
///
/// The depth-first search is implemented iteratively with two vectors:
/// `stack` holds one frame per search level, and `current_solution` the
/// candidate indices of the current partial solution, so that the partial
/// word list is never cloned while searching.
pub struct AnagramIterator {
    pub candidates: Vec<Word>,
    pub stack: Vec<SearchFrame>,
    pub current_solution: Vec<usize>,
    pub target: Ghost<Seq<nat>>,
}

impl AnagramIterator {
    /// The iterator's state is consistent: frequencies match texts, every
    /// candidate contributes letters, the path runs one short of the stack,
    /// and each frame's remaining letters plus the letters consumed on the
    /// path up to it give back the target.
    pub open spec fn wf(&self) -> bool {
        let cands = texts(self.candidates@);
        &&& forall|j: int|
            0 <= j < self.candidates@.len() ==> (#[trigger] self.candidates@[j]).wf()
        &&& cands_ok(cands)
        &&& (self.stack@.len() == 0 ==> self.current_solution@.len() == 0)
        &&& (self.stack@.len() > 0 ==> self.current_solution@.len() + 1 == self.stack@.len())
        &&& forall|k: int|
            0 <= k < self.current_solution@.len() ==> (#[trigger] self.current_solution@[k])
                < self.candidates@.len()
        &&& forall|k: int|
            0 <= k < self.stack@.len() ==> (#[trigger] self.stack@[k]).cursor
                <= self.candidates@.len()
        &&& self.target@.len() == 26
        &&& forall|k: int|
            0 <= k < self.stack@.len() ==> add_counts(
                (#[trigger] self.stack@[k]).remaining@,
                path_counts(cands, abs_path(self.current_solution@).take(k)),
            ) == self.target@
    }

    /// The solutions this iterator will still emit, in order.
    pub open spec fn outs(&self) -> Seq<Seq<Seq<char>>> {
        outputs(texts(self.candidates@), abs_frames(self.stack@), abs_path(self.current_solution@))
    }

    /// The termination measure of the remaining search.
    pub open spec fn measure(&self) -> nat {
        stack_measure(self.candidates@.len(), abs_frames(self.stack@))
    }

    /// Start a search over `candidates` for the letters of `target`.
    pub fn new(candidates: Vec<Word>, target: LetterFreq) -> (it: AnagramIterator)
        requires
            forall|j: int| 0 <= j < candidates@.len() ==> (#[trigger] candidates@[j]).wf(),
            cands_ok(texts(candidates@)),
        ensures
            it.wf(),
            it.candidates == candidates,
            it.target@ == target@,
            abs_frames(it.stack@) == seq![(target@, 0int)],
            it.current_solution@ == Seq::<usize>::empty(),
    {
        let mut stack: Vec<SearchFrame> = Vec::new();
        stack.push(SearchFrame { remaining: target, cursor: 0 });
        let it = AnagramIterator {
            candidates,
            stack,
            current_solution: Vec::new(),
            target: Ghost(target@),
        };
        proof {
            assert(abs_frames(it.stack@) =~= seq![(target@, 0int)]);
            let cands = texts(it.candidates@);
            assert(abs_path(it.current_solution@).take(0) =~= Seq::<int>::empty());
            assert(add_counts(target@, path_counts(cands, Seq::<int>::empty())) =~= target@);
        }
        it
    }
}

impl AnagramSolver {
    /// Every stored frequency matches its text.
    pub open spec fn wf(&self) -> bool {
        forall|j: int| 0 <= j < self.words@.len() ==> (#[trigger] self.words@[j]).wf()
    }

    /// Create a new anagram solver from a word list.
    pub fn new(wordlist: Vec<String>) -> (s: AnagramSolver)
        ensures
            s.wf(),
            texts(s.words@) == wordlist.deep_view(),
    {
        let mut words: Vec<Word> = Vec::new();
        let mut j: usize = 0;
        proof {
            assert(texts(words@) =~= wordlist.deep_view().take(0));
        }
        while j < wordlist.len()
            invariant
                j <= wordlist@.len(),
                words@.len() == j,
                forall|i: int| 0 <= i < words@.len() ==> (#[trigger] words@[i]).wf(),
                texts(words@) == wordlist.deep_view().take(j as int),
            decreases wordlist@.len() - j,
        {
            let t = wordlist[j].clone();
            let ghost tv = t@;
            let freq = LetterFreq::from_str(t.as_str());
            let ghost prev = words@;
            words.push(Word { text: t, freq });
            proof {
                assert(words@[j as int].text@ == tv);
                assert(tv == wordlist@[j as int]@);
                assert(wordlist.deep_view()[j as int] == wordlist@[j as int]@);
                assert forall|i: int| 0 <= i < j implies texts(words@)[i] == texts(prev)[i] by {
                    assert(words@[i] == prev[i]);
                }
                assert(texts(words@) =~= wordlist.deep_view().take(j + 1));
                assert forall|i: int| 0 <= i < words@.len() implies (#[trigger] words@[i]).wf()
                    by {
                    if i < prev.len() {
                        assert(words@[i] == prev[i]);
                    }
                }
            }
            j = j + 1;
        }
        proof {
            assert(wordlist.deep_view().take(wordlist@.len() as int) =~= wordlist.deep_view());
        }
        AnagramSolver { words }
    }

    /// Create an iterator that yields the solutions for `phrase` one by one.
    ///
    /// The candidate list keeps exactly the dictionary words whose letters
    /// fit inside the phrase and that contribute at least one letter (a word
    /// without letters could repeat forever without consuming anything), and
    /// sorts it so that longer words come first.
    pub fn iter(&self, phrase: &str) -> (it: AnagramIterator)
        requires
            self.wf(),
        ensures
            it.wf(),
            it.target@ == counts_of(phrase@),
            texts(it.candidates@) == sort_words(
                filter_fits(texts(self.words@), counts_of(phrase@)),
            ),
            abs_frames(it.stack@) == seq![(counts_of(phrase@), 0int)],
            it.current_solution@ == Seq::<usize>::empty(),
            it.outs() == engine_outputs(texts(self.words@), phrase@),
    {
        let target = LetterFreq::from_str(phrase);
        let ghost all = texts(self.words@);

        let mut picked: Vec<Word> = Vec::new();
        let mut j: usize = 0;
        proof {
            assert(texts(picked@) =~= filter_fits(all.take(0), target@));
        }
        while j < self.words.len()
            invariant
                self.wf(),
                all == texts(self.words@),
                target@ == counts_of(phrase@),
                j <= self.words@.len(),
                forall|i: int| 0 <= i < picked@.len() ==> (#[trigger] picked@[i]).wf(),
                forall|i: int|
                    0 <= i < picked@.len() ==> !all_zero(
                        counts_of((#[trigger] picked@[i]).text@),
                    ),
                texts(picked@) == filter_fits(all.take(j as int), target@),
            decreases self.words@.len() - j,
        {
            proof {
                assert(all.take(j + 1).drop_last() =~= all.take(j as int));
                assert(all.take(j + 1).last() == self.words@[j as int].text@);
            }
            let keep = if self.words[j].freq.is_empty() {
                false
            } else {
                target.subtract(&self.words[j].freq).is_some()
            };
            if keep {
                let w = Word { text: self.words[j].text.clone(), freq: self.words[j].freq };
                let ghost prev = picked@;
                picked.push(w);
                proof {
                    assert(texts(picked@) =~= texts(prev).push(self.words@[j as int].text@));
                    assert forall|i: int|
                        0 <= i < picked@.len() implies (#[trigger] picked@[i]).wf() && !all_zero(
                        counts_of(picked@[i].text@),
                    ) by {
                        if i < prev.len() {
                            assert(picked@[i] == prev[i]);
                        }
                    }
                }
            }
            j = j + 1;
        }
        proof {
            assert(all.take(self.words@.len() as int) =~= all);
        }

        let ghost pk = texts(picked@);
        let mut sorted: Vec<Word> = Vec::new();
        let mut i: usize = 0;
        proof {
            assert(texts(sorted@) =~= sort_words(pk.take(0)));
        }
        while i < picked.len()
            invariant
                pk == texts(picked@),
                i <= picked@.len(),
                forall|k: int| 0 <= k < picked@.len() ==> (#[trigger] picked@[k]).wf(),
                forall|k: int|
                    0 <= k < picked@.len() ==> !all_zero(
                        counts_of((#[trigger] picked@[k]).text@),
                    ),
                forall|k: int| 0 <= k < sorted@.len() ==> (#[trigger] sorted@[k]).wf(),
                forall|k: int|
                    0 <= k < sorted@.len() ==> !all_zero(
                        counts_of((#[trigger] sorted@[k]).text@),
                    ),
                texts(sorted@) == sort_words(pk.take(i as int)),
            decreases picked@.len() - i,
        {
            let w = Word { text: picked[i].text.clone(), freq: picked[i].freq };
            let mut pos: usize = 0;
            loop
                invariant
                    pos <= sorted@.len(),
                    forall|k: int| 0 <= k < pos ==> word_le_v(#[trigger] texts(sorted@)[k], w.text@),
                ensures
                    pos <= sorted@.len(),
                    forall|k: int| 0 <= k < pos ==> word_le_v(#[trigger] texts(sorted@)[k], w.text@),
                    pos < sorted@.len() ==> !word_le_v(texts(sorted@)[pos as int], w.text@),
                decreases sorted@.len() - pos,
            {
                if pos >= sorted.len() {
                    break;
                }
                if !word_le_exec(&sorted[pos], &w) {
                    break;
                }
                proof {
                    assert(texts(sorted@)[pos as int] == sorted@[pos as int].text@);
                }
                pos = pos + 1;
            }
            let ghost prev = sorted@;
            sorted.insert(pos, w);
            proof {
                lemma_insert_at(w.text@, texts(prev), pos as int);
                assert(sorted@ =~= prev.take(pos as int) + seq![w] + prev.skip(pos as int));
                assert(texts(sorted@) =~= texts(prev).take(pos as int) + seq![w.text@]
                    + texts(prev).skip(pos as int));
                assert(pk.take(i + 1).drop_last() =~= pk.take(i as int));
                assert(pk.take(i + 1).last() == picked@[i as int].text@);
                assert(texts(sorted@) == sort_words(pk.take(i + 1)));
                assert forall|k: int| 0 <= k < sorted@.len() implies (#[trigger] sorted@[k]).wf()
                    && !all_zero(counts_of(sorted@[k].text@)) by {
                    if k < pos {
                        assert(sorted@[k] == prev[k]);
                    } else if k > pos {
                        assert(sorted@[k] == prev[k - 1]);
                    }
                }
            }
            i = i + 1;
        }
        proof {
            assert(pk.take(picked@.len() as int) =~= pk);
            assert(cands_ok(texts(sorted@)));
        }
        let it = AnagramIterator::new(sorted, target);
        proof {
            assert(abs_path(it.current_solution@) =~= Seq::<int>::empty());
        }
        it
    }
}

impl AnagramIterator {
    /// Advance the depth-first search until the next valid solution is
    /// found (`Some`) or the search space is exhausted (`None`).
    ///
    /// The result and the new state are fully determined: the iterator
    /// emits exactly the sequence `outs()`, one element per successful
    /// call, and once it answers `None` every later call answers `None`
    /// on an unchanged iterator.
    pub fn next(&mut self) -> (r: Option<Vec<String>>)
        requires
            old(self).wf(),
        ensures
            final(self).wf(),
            final(self).candidates == old(self).candidates,
            final(self).target == old(self).target,
            match r {
                Some(sol) => {
                    &&& old(self).outs().len() > 0
                    &&& sol.deep_view() == old(self).outs()[0]
                    &&& final(self).outs() == old(self).outs().drop_first()
                    &&& solution_counts(sol.deep_view()) == old(self).target@
                    &&& valid_solution(sol.deep_view())
                    &&& forall|i: int|
                        0 <= i < sol.deep_view().len() ==> texts(old(self).candidates@).contains(
                            #[trigger] sol.deep_view()[i],
                        )
                    &&& final(self).measure() < old(self).measure()
                },
                None => {
                    &&& old(self).outs().len() == 0
                    &&& final(self).outs().len() == 0
                    &&& final(self).stack@.len() == 0
                    &&& (old(self).stack@.len() == 0 ==> *final(self) == *old(self))
                },
            },
    {
        let ghost gcands = texts(self.candidates@);
        if self.stack.len() == 0 {
            proof {
                assert(abs_frames(self.stack@) =~= Seq::<(Seq<nat>, int)>::empty());
                assert(self.outs() =~= Seq::<Seq<Seq<char>>>::empty());
            }
            return None;
        }
        while self.stack.len() > 0
            invariant
                self.wf(),
                self.candidates == old(self).candidates,
                self.target == old(self).target,
                self.outs() == old(self).outs(),
                self.measure() <= old(self).measure(),
                old(self).stack@.len() > 0,
                gcands == texts(self.candidates@),
            decreases self.measure(),
        {
            let ghost pre = *self;
            let ghost gstack = abs_frames(pre.stack@);
            let ghost gpath = abs_path(pre.current_solution@);
            let n = self.stack.len();
            let top = self.stack[n - 1];
            proof {
                assert(gstack[n - 1] == (top.remaining@, top.cursor as int));
                assert(gstack.last() == (top.remaining@, top.cursor as int));
            }
            if top.remaining.is_empty() {
                // A complete solution: rebuild the words along the path.
                let m = self.current_solution.len();
                let mut sol: Vec<String> = Vec::new();
                let mut k: usize = 0;
                proof {
                    assert(sol.deep_view() =~= path_solution(gcands, abs_path(
                        self.current_solution@,
                    ).take(0)));
                }
                while k < m
                    invariant
                        *self == pre,
                        self.wf(),
                        gcands == texts(self.candidates@),
                        m == self.current_solution@.len(),
                        k <= m,
                        sol.deep_view() == path_solution(
                            gcands,
                            abs_path(self.current_solution@).take(k as int),
                        ),
                    decreases m - k,
                {
                    let idx = self.current_solution[k];
                    let t = self.candidates[idx].text.clone();
                    let ghost tv = t@;
                    let ghost prevv = sol@;
                    let ghost prevsol = sol.deep_view();
                    sol.push(t);
                    proof {
                        assert(tv == gcands[idx as int]);
                        let ap = abs_path(self.current_solution@);
                        let want = path_solution(gcands, ap.take(k + 1));
                        assert(ap.len() == m);
                        assert(prevsol.len() == path_solution(gcands, ap.take(k as int)).len());
                        assert(prevsol.len() == k);
                        assert(sol@.len() == prevv.len() + 1);
                        assert(sol.deep_view().len() == sol@.len());
                        assert(prevv.len() == prevsol.len());
                        assert(sol.deep_view().len() == k + 1);
                        assert(want.len() == k + 1);
                        assert forall|i: int|
                            0 <= i < k + 1 implies sol.deep_view()[i] == want[i] by {
                            assert(want[i] == gcands[ap[i]]);
                            if i < k {
                                assert(sol@[i] == prevv[i]);
                                assert(sol.deep_view()[i] == prevsol[i]);
                                assert(prevsol[i] == path_solution(gcands, ap.take(k as int))[i]);
                                assert(path_solution(gcands, ap.take(k as int))[i] == gcands[ap.take(
                                    k as int,
                                )[i]]);
                            } else {
                                assert(sol@[i] == t);
                                assert(sol.deep_view()[i] == tv);
                                assert(ap[i] == idx as int);
                            }
                        }
                        assert(sol.deep_view() =~= want);
                    }
                    k = k + 1;
                }
                proof {
                    assert(abs_path(self.current_solution@).take(m as int) =~= gpath);
                }
                let ghost gsol = sol.deep_view();
                self.stack.pop();
                if self.current_solution.len() > 0 {
                    self.current_solution.pop();
                }
                let valid = is_valid_solution(&sol);
                proof {
                    lemma_abs_frames_drop(pre.stack@);
                    if pre.current_solution@.len() > 0 {
                        lemma_abs_path_drop(pre.current_solution@);
                    }
                    let gstack1 = gstack.drop_last();
                    let gpath1 = if gpath.len() > 0 {
                        gpath.drop_last()
                    } else {
                        gpath
                    };
                    assert(abs_frames(self.stack@) == gstack1);
                    assert(abs_path(self.current_solution@) =~= gpath1);
                    // The popped state is still well formed.
                    assert forall|q: int| 0 <= q < self.stack@.len() implies add_counts(
                        (#[trigger] self.stack@[q]).remaining@,
                        path_counts(gcands, abs_path(self.current_solution@).take(q)),
                    ) == self.target@ by {
                        assert(self.stack@[q] == pre.stack@[q]);
                        assert(abs_path(self.current_solution@).take(q) =~= gpath.take(q));
                        assert(add_counts(
                            pre.stack@[q].remaining@,
                            path_counts(gcands, gpath.take(q)),
                        ) == pre.target@);
                    }
                    assert(self.wf());
                    // The emitted solution carries exactly the target letters.
                    assert(gpath.take(gpath.len() as int) =~= gpath);
                    assert(add_counts(top.remaining@, path_counts(gcands, gpath)) == pre.target@);
                    assert(path_counts(gcands, gpath) =~= add_counts(
                        top.remaining@,
                        path_counts(gcands, gpath),
                    ));
                    lemma_solution_counts_path(gcands, gpath);
                    assert(solution_counts(gsol) == pre.target@);
                    // Every emitted word is a candidate.
                    assert forall|i: int| 0 <= i < gsol.len() implies gcands.contains(
                        #[trigger] gsol[i],
                    ) by {
                        assert(gsol[i] == gcands[gpath[i]]);
                    }
                    // This step follows the abstract machine.
                    lemma_measure_pop(gcands.len(), gstack);
                    if valid {
                        assert(outputs(gcands, gstack, gpath) == seq![gsol] + outputs(
                            gcands,
                            gstack1,
                            gpath1,
                        ));
                        assert((seq![gsol] + self.outs()).drop_first() =~= self.outs());
                        assert((seq![gsol] + self.outs())[0] == gsol);
                    } else {
                        assert(outputs(gcands, gstack, gpath) == outputs(gcands, gstack1, gpath1));
                    }
                }
                if valid {
                    return Some(sol);
                }
            } else if top.cursor < self.candidates.len() {
                let cf = self.candidates[top.cursor].freq;
                self.stack.pop();
                self.stack.push(SearchFrame { remaining: top.remaining, cursor: top.cursor + 1 });
                let ghost gadv = gstack.update(gstack.len() - 1, (
                    top.remaining@,
                    top.cursor + 1 as int,
                ));
                proof {
                    assert(abs_frames(self.stack@) =~= gadv);
                    assert(cf@ == counts_of(gcands[top.cursor as int]));
                }
                let sub = top.remaining.subtract(&cf);
                match sub {
                    Some(nr) => {
                        self.current_solution.push(top.cursor);
                        self.stack.push(SearchFrame { remaining: nr, cursor: 0 });
                        proof {
                            let cur = top.cursor as int;
                            let cfreq = counts_of(gcands[cur]);
                            assert(abs_frames(self.stack@) =~= gadv.push((
                                sub_counts(top.remaining@, cfreq),
                                0int,
                            )));
                            assert(abs_path(self.current_solution@) =~= gpath.push(cur));
                            // Well-formedness of the extended state.
                            assert forall|q: int| 0 <= q < self.stack@.len() implies add_counts(
                                (#[trigger] self.stack@[q]).remaining@,
                                path_counts(gcands, abs_path(self.current_solution@).take(q)),
                            ) == self.target@ by {
                                let gpath2 = abs_path(self.current_solution@);
                                if q < gstack.len() {
                                    assert(gpath2.take(q) =~= gpath.take(q));
                                    if q < gstack.len() - 1 {
                                        assert(self.stack@[q] == pre.stack@[q]);
                                    } else {
                                        assert(self.stack@[q].remaining@ == top.remaining@);
                                        assert(pre.stack@[q].remaining@ == top.remaining@);
                                    }
                                    assert(add_counts(
                                        pre.stack@[q].remaining@,
                                        path_counts(gcands, gpath.take(q)),
                                    ) == pre.target@);
                                } else {
                                    assert(self.stack@[q].remaining@ == nr@);
                                    assert(gpath2.take(q) =~= gpath.push(cur));
                                    assert(gpath.push(cur).drop_last() =~= gpath);
                                    assert(path_counts(gcands, gpath.push(cur)) == add_counts(
                                        path_counts(gcands, gpath),
                                        cfreq,
                                    ));
                                    assert(gpath.take(gpath.len() as int) =~= gpath);
                                    assert(add_counts(
                                        top.remaining@,
                                        path_counts(gcands, gpath),
                                    ) == pre.target@);
                                    assert(add_counts(
                                        nr@,
                                        add_counts(path_counts(gcands, gpath), cfreq),
                                    ) =~= add_counts(
                                        top.remaining@,
                                        path_counts(gcands, gpath),
                                    ));
                                }
                            }
                            assert(self.wf());
                            assert(outputs(gcands, gstack, gpath) == outputs(
                                gcands,
                                gadv.push((sub_counts(top.remaining@, cfreq), 0int)),
                                gpath.push(cur),
                            ));
                            lemma_step_measures(gcands, gstack);
                        }
                    },
                    None => {
                        proof {
                            let gpath2 = abs_path(self.current_solution@);
                            assert(gpath2 == gpath);
                            assert forall|q: int| 0 <= q < self.stack@.len() implies add_counts(
                                (#[trigger] self.stack@[q]).remaining@,
                                path_counts(gcands, gpath2.take(q)),
                            ) == self.target@ by {
                                if q < gstack.len() - 1 {
                                    assert(self.stack@[q] == pre.stack@[q]);
                                } else {
                                    assert(self.stack@[q].remaining@ == top.remaining@);
                                    assert(pre.stack@[q].remaining@ == top.remaining@);
                                }
                                assert(add_counts(
                                    pre.stack@[q].remaining@,
                                    path_counts(gcands, gpath.take(q)),
                                ) == pre.target@);
                            }
                            assert(self.wf());
                            assert(outputs(gcands, gstack, gpath) == outputs(gcands, gadv, gpath));
                            lemma_step_measures(gcands, gstack);
                        }
                    },
                }
            } else {
                // No candidates left at this level: backtrack.
                self.stack.pop();
                if self.current_solution.len() > 0 {
                    self.current_solution.pop();
                }
                proof {
                    lemma_abs_frames_drop(pre.stack@);
                    if pre.current_solution@.len() > 0 {
                        lemma_abs_path_drop(pre.current_solution@);
                    }
                    let gstack1 = gstack.drop_last();
                    let gpath1 = if gpath.len() > 0 {
                        gpath.drop_last()
                    } else {
                        gpath
                    };
                    assert(abs_frames(self.stack@) == gstack1);
                    assert(abs_path(self.current_solution@) =~= gpath1);
                    assert forall|q: int| 0 <= q < self.stack@.len() implies add_counts(
                        (#[trigger] self.stack@[q]).remaining@,
                        path_counts(gcands, abs_path(self.current_solution@).take(q)),
                    ) == self.target@ by {
                        assert(self.stack@[q] == pre.stack@[q]);
                        assert(abs_path(self.current_solution@).take(q) =~= gpath.take(q));
                        assert(add_counts(
                            pre.stack@[q].remaining@,
                            path_counts(gcands, gpath.take(q)),
                        ) == pre.target@);
                    }
                    assert(self.wf());
                    assert(top.cursor as int == gcands.len());
                    assert(outputs(gcands, gstack, gpath) == outputs(gcands, gstack1, gpath1));
                    lemma_measure_pop(gcands.len(), gstack);
                }
            }
        }
        proof {
            assert(abs_frames(self.stack@) =~= Seq::<(Seq<nat>, int)>::empty());
            assert(self.outs() =~= Seq::<Seq<Seq<char>>>::empty());
        }
        None
    }
}

/// Join a solution's words with single spaces.
fn join_spaces(sol: &Vec<String>) -> (r: String)
    ensures
        r@ == join_words(sol.deep_view()),
{
    let mut out = String::new();
    let n = sol.len();
    let mut k: usize = 0;
    proof {
        reveal_strlit(" ");
        assert(sol.deep_view().take(0) =~= Seq::<Seq<char>>::empty());
    }
    while k < n
        invariant
            n == sol@.len(),
            k <= n,
            out@ == join_words(sol.deep_view().take(k as int)),
        decreases n - k,
    {
        if k > 0 {
            out.append(" ");
            proof {
                reveal_strlit(" ");
                assert(" "@ =~= seq![' ']);
            }
        }
        out.append(sol[k].as_str());
        proof {
            let dv = sol.deep_view();
            assert(dv.take(k + 1).drop_last() =~= dv.take(k as int));
            assert(dv.take(k + 1).last() == dv[k as int]);
            if k == 0 {
                assert(join_words(dv.take(1)) == dv.take(1)[0]);
                assert(out@ == dv[0]);
            }
        }
        k = k + 1;
    }
    proof {
        assert(sol.deep_view().take(n as int) =~= sol.deep_view());
    }
    out
}

impl AnagramSolver {
    /// Collect all valid solutions for `phrase`, each joined with spaces,
    /// in emission order.
    pub fn solve(&self, phrase: &str) -> (r: Vec<String>)
        requires
            self.wf(),
        ensures
            r.deep_view() == solve_spec(texts(self.words@), phrase@),
    {
        let ghost goal = solve_spec(texts(self.words@), phrase@);
        let mut it = self.iter(phrase);
        let mut out: Vec<String> = Vec::new();
        proof {
            assert(goal =~= out.deep_view() + it.outs().map_values(
                |ws: Seq<Seq<char>>| join_words(ws),
            ));
        }
        loop
            invariant
                it.wf(),
                goal == solve_spec(texts(self.words@), phrase@),
                goal == out.deep_view() + it.outs().map_values(
                    |ws: Seq<Seq<char>>| join_words(ws),
                ),
            decreases it.measure(),
        {
            let nxt = it.next();
            match nxt {
                Some(sol) => {
                    let line = join_spaces(&sol);
                    let ghost linev = line@;
                    let ghost prevout = out.deep_view();
                    let ghost remaining = it.outs().map_values(
                        |ws: Seq<Seq<char>>| join_words(ws),
                    );
                    out.push(line);
                    proof {
                        assert(out.deep_view() =~= prevout.push(linev));
                        assert(prevout.push(linev) + remaining =~= prevout + (seq![linev]
                            + remaining));
                        assert(seq![linev] + remaining =~= (seq![sol.deep_view()] + it.outs()).map_values(
                            |ws: Seq<Seq<char>>| join_words(ws),
                        ));
                        assert(seq![sol.deep_view()] + it.outs() =~= (seq![sol.deep_view()]
                            + it.outs()));
                    }
                },
                None => {
                    proof {
                        assert(it.outs().map_values(|ws: Seq<Seq<char>>| join_words(ws)) =~= Seq::<
                            Seq<char>,
                        >::empty());
                        assert(out.deep_view() =~= goal);
                    }
                    return out;
                },
            }
        }
    }
}

// ---------------------------------------------------------------------------
// Laws of the search.
// ---------------------------------------------------------------------------

/// Every word inside any emitted solution is one of the candidates.
proof fn lemma_outputs_words(cands: Seq<Seq<char>>, stack: Seq<(Seq<nat>, int)>, path: Seq<int>)
    requires
        cands_ok(cands),
        frames_ok(cands, stack),
        forall|i: int| 0 <= i < path.len() ==> 0 <= #[trigger] path[i] < cands.len(),
    ensures
        forall|a: int, b: int|
            0 <= a < outputs(cands, stack, path).len() && 0 <= b < outputs(cands, stack, path)[a].len()
                ==> cands.contains(#[trigger] outputs(cands, stack, path)[a][b]),
    decreases stack_measure(cands.len(), stack),
{
    if stack.len() > 0 {
        let top = stack.last();
        let rem = top.0;
        let cur = top.1;
        let popped = stack.drop_last();
        let path1 = if path.len() > 0 {
            path.drop_last()
        } else {
            path
        };
        assert(frames_ok(cands, popped)) by {
            assert forall|k: int| 0 <= k < popped.len() implies 0 <= (#[trigger] popped[k]).1
                <= cands.len() && popped[k].0.len() == 26 by {
                assert(popped[k] == stack[k]);
            }
        }
        assert forall|i: int| 0 <= i < path1.len() implies 0 <= #[trigger] path1[i]
            < cands.len() by {
            assert(path1[i] == path[i]);
        }
        lemma_measure_pop(cands.len(), stack);
        if all_zero(rem) {
            lemma_outputs_words(cands, popped, path1);
            let sol = path_solution(cands, path);
            if !valid_solution(sol) {
                assert(outputs(cands, stack, path) == outputs(cands, popped, path1));
            }
            if valid_solution(sol) {
                assert forall|a: int, b: int|
                    0 <= a < outputs(cands, stack, path).len() && 0 <= b < outputs(
                        cands,
                        stack,
                        path,
                    )[a].len() implies cands.contains(
                    #[trigger] outputs(cands, stack, path)[a][b],
                ) by {
                    if a == 0 {
                        assert(outputs(cands, stack, path)[0] == sol);
                        assert(sol[b] == cands[path[b]]);
                    } else {
                        assert(outputs(cands, stack, path)[a] == outputs(cands, popped, path1)[a
                            - 1]);
                    }
                }
            }
        } else if cur < cands.len() {
            let advanced = stack.update(stack.len() - 1, (rem, cur + 1));
            assert(frames_ok(cands, advanced)) by {
                assert forall|k: int|
                    0 <= k < advanced.len() implies 0 <= (#[trigger] advanced[k]).1 <= cands.len()
                    && advanced[k].0.len() == 26 by {
                    if k < advanced.len() - 1 {
                        assert(advanced[k] == stack[k]);
                    }
                }
            }
            lemma_step_measures(cands, stack);
            let cfreq = counts_of(cands[cur]);
            if fits(cfreq, rem) {
                let pushed = advanced.push((sub_counts(rem, cfreq), 0int));
                assert(frames_ok(cands, pushed)) by {
                    assert forall|k: int|
                        0 <= k < pushed.len() implies 0 <= (#[trigger] pushed[k]).1 <= cands.len()
                        && pushed[k].0.len() == 26 by {
                        if k < pushed.len() - 1 {
                            assert(pushed[k] == advanced[k]);
                        }
                    }
                }
                let path2 = path.push(cur);
                assert forall|i: int| 0 <= i < path2.len() implies 0 <= #[trigger] path2[i]
                    < cands.len() by {
                    if i < path.len() {
                        assert(path2[i] == path[i]);
                    }
                }
                lemma_outputs_words(cands, pushed, path2);
                assert(outputs(cands, stack, path) == outputs(cands, pushed, path2));
            } else {
                lemma_outputs_words(cands, advanced, path);
                assert(outputs(cands, stack, path) == outputs(cands, advanced, path));
            }
        } else {
            lemma_outputs_words(cands, popped, path1);
            assert(outputs(cands, stack, path) == outputs(cands, popped, path1));
        }
    } else {
        assert(outputs(cands, stack, path) =~= Seq::<Seq<Seq<char>>>::empty());
    }
}

/// An empty phrase has exactly one solution: the empty one, which joins
/// to the empty line.
pub proof fn lemma_empty_phrase(words: Seq<Seq<char>>, phrase: Seq<char>)
    requires
        phrase.len() == 0,
    ensures
        solve_spec(words, phrase) == seq![Seq::<char>::empty()],
{
    let target = counts_of(phrase);
    assert(all_zero(target));
    let cands = sort_words(filter_fits(words, target));
    assert(cands_ok(cands)) by {
        assert forall|j: int| 0 <= j < cands.len() implies !all_zero(
            counts_of(#[trigger] cands[j]),
        ) by {
            lemma_sort_words_elem(filter_fits(words, target), cands[j]);
            lemma_filter_fits_elem(words, target, cands[j]);
        }
    }
    let st = seq![(target, 0int)];
    assert(frames_ok(cands, st));
    let e = Seq::<int>::empty();
    assert(st.drop_last() =~= Seq::<(Seq<nat>, int)>::empty());
    assert(frames_ok(cands, st.drop_last()));
    assert(outputs(cands, st.drop_last(), e) =~= Seq::<Seq<Seq<char>>>::empty());
    assert(path_solution(cands, e) =~= Seq::<Seq<char>>::empty());
    assert(valid_solution(Seq::<Seq<char>>::empty()));
    assert(outputs(cands, st, e) =~= seq![Seq::<Seq<char>>::empty()]);
    assert(join_words(Seq::<Seq<char>>::empty()) == Seq::<char>::empty());
    assert(solve_spec(words, phrase) =~= seq![Seq::<char>::empty()]);
}

/// A dictionary word with a letter the phrase lacks (more of some letter
/// than the phrase has) never appears in any emitted solution.
pub proof fn lemma_candidate_filtering(words: Seq<Seq<char>>, phrase: Seq<char>, w: Seq<char>)
    requires
        !fits(counts_of(w), counts_of(phrase)),
    ensures
        forall|a: int, b: int|
            0 <= a < engine_outputs(words, phrase).len() && 0 <= b < engine_outputs(
                words,
                phrase,
            )[a].len() ==> engine_outputs(words, phrase)[a][b] != w,
{
    let target = counts_of(phrase);
    let cands = sort_words(filter_fits(words, target));
    assert(cands_ok(cands)) by {
        assert forall|j: int| 0 <= j < cands.len() implies !all_zero(
            counts_of(#[trigger] cands[j]),
        ) by {
            lemma_sort_words_elem(filter_fits(words, target), cands[j]);
            lemma_filter_fits_elem(words, target, cands[j]);
        }
    }
    let st = seq![(target, 0int)];
    assert(frames_ok(cands, st));
    lemma_outputs_words(cands, st, Seq::<int>::empty());
    assert(!cands.contains(w)) by {
        if cands.contains(w) {
            lemma_sort_words_elem(filter_fits(words, target), w);
            lemma_filter_fits_elem(words, target, w);
        }
    }
}

/// Identical dictionaries and phrases give identical solution sequences:
/// `solve` is pinned to `solve_spec`, a function of the two views alone,
/// so repeated calls emit the same solutions in the same order.
pub proof fn lemma_deterministic(
    words1: Seq<Seq<char>>,
    words2: Seq<Seq<char>>,
    phrase1: Seq<char>,
    phrase2: Seq<char>,
)
    requires
        words1 == words2,
        phrase1 == phrase2,
    ensures
        solve_spec(words1, phrase1) == solve_spec(words2, phrase2),
{
}

/// An exhausted search emits nothing, whatever is asked of it afterwards.
pub proof fn lemma_exhausted(cands: Seq<Seq<char>>, path: Seq<int>)
    requires
        cands_ok(cands),
    ensures
        outputs(cands, Seq::<(Seq<nat>, int)>::empty(), path).len() == 0,
{
    assert(outputs(cands, Seq::<(Seq<nat>, int)>::empty(), path) =~= Seq::<Seq<Seq<char>>>::empty());
}

/// Characters with the same code point are the same character.
proof fn lemma_char_code(c1: char, c2: char)
    requires
        c1 as u32 == c2 as u32,
    ensures
        c1 == c2,
{
}

/// The lexicographic order is total.
proof fn lemma_chars_le_total(a: Seq<char>, b: Seq<char>)
    ensures
        chars_le(a, b) || chars_le(b, a),
    decreases a.len(),
{
    if a.len() > 0 && b.len() > 0 {
        if a[0] == b[0] {
            lemma_chars_le_total(a.drop_first(), b.drop_first());
        } else if (a[0] as u32) == (b[0] as u32) {
            lemma_char_code(a[0], b[0]);
        }
    }
}

/// The lexicographic order is transitive.
proof fn lemma_chars_le_trans(a: Seq<char>, b: Seq<char>, c: Seq<char>)
    requires
        chars_le(a, b),
        chars_le(b, c),
    ensures
        chars_le(a, c),
    decreases a.len(),
{
    if a.len() > 0 && b.len() > 0 && c.len() > 0 && a[0] == b[0] && b[0] == c[0] {
        lemma_chars_le_trans(a.drop_first(), b.drop_first(), c.drop_first());
    }
}

/// The candidate order is total.
proof fn lemma_word_le_total(a: Seq<char>, b: Seq<char>)
    ensures
        word_le_v(a, b) || word_le_v(b, a),
{
    if encode_utf8(a).len() == encode_utf8(b).len() {
        lemma_chars_le_total(a, b);
    }
}

/// The candidate order is transitive.
proof fn lemma_word_le_trans(a: Seq<char>, b: Seq<char>, c: Seq<char>)
    requires
        word_le_v(a, b),
        word_le_v(b, c),
    ensures
        word_le_v(a, c),
{
    if encode_utf8(a).len() == encode_utf8(b).len() && encode_utf8(b).len() == encode_utf8(
        c,
    ).len() {
        lemma_chars_le_trans(a, b, c);
    }
}

/// Sorted in the candidate order: longer words first, ties in
/// lexicographic order.
pub open spec fn sorted_words(s: Seq<Seq<char>>) -> bool {
    forall|i: int, j: int| 0 <= i < j < s.len() ==> word_le_v(#[trigger] s[i], #[trigger] s[j])
}

/// Inserting into a sorted sequence keeps it sorted.
proof fn lemma_insert_sorted_sorted(w: Seq<char>, s: Seq<Seq<char>>)
    requires
        sorted_words(s),
    ensures
        sorted_words(insert_sorted(w, s)),
    decreases s.len(),
{
    let t = insert_sorted(w, s);
    if s.len() == 0 {
    } else if word_le_v(s[0], w) {
        let s1 = s.drop_first();
        assert(sorted_words(s1)) by {
            assert forall|i: int, j: int| 0 <= i < j < s1.len() implies word_le_v(
                #[trigger] s1[i],
                #[trigger] s1[j],
            ) by {
                assert(s1[i] == s[i + 1]);
                assert(s1[j] == s[j + 1]);
            }
        }
        lemma_insert_sorted_sorted(w, s1);
        let t1 = insert_sorted(w, s1);
        assert forall|i: int, j: int| 0 <= i < j < t.len() implies word_le_v(
            #[trigger] t[i],
            #[trigger] t[j],
        ) by {
            if i == 0 {
                assert(t[j] == t1[j - 1]);
                assert(t1.contains(t1[j - 1]));
                lemma_insert_sorted_elem(w, s1, t1[j - 1]);
                if t1[j - 1] == w {
                    assert(word_le_v(s[0], w));
                } else {
                    let k = choose|k: int| 0 <= k < s1.len() && s1[k] == t1[j - 1];
                    assert(s1[k] == s[k + 1]);
                    assert(word_le_v(s[0], s[k + 1]));
                }
            } else {
                assert(t[i] == t1[i - 1]);
                assert(t[j] == t1[j - 1]);
            }
        }
    } else {
        lemma_word_le_total(s[0], w);
        assert(word_le_v(w, s[0]));
        assert forall|i: int, j: int| 0 <= i < j < t.len() implies word_le_v(
            #[trigger] t[i],
            #[trigger] t[j],
        ) by {
            if i == 0 {
                assert(t[j] == s[j - 1]);
                if j - 1 > 0 {
                    assert(word_le_v(s[0], s[j - 1]));
                    lemma_word_le_trans(w, s[0], s[j - 1]);
                }
            } else {
                assert(t[i] == s[i - 1]);
                assert(t[j] == s[j - 1]);
            }
        }
    }
}

/// The candidate list really is sorted: every earlier candidate precedes
/// every later one in the candidate order (longer texts first, equal
/// lengths lexicographically).
pub proof fn lemma_sort_words_sorted(s: Seq<Seq<char>>)
    ensures
        sorted_words(sort_words(s)),
    decreases s.len(),
{
    if s.len() > 0 {
        lemma_sort_words_sorted(s.drop_last());
        lemma_insert_sorted_sorted(s.last(), sort_words(s.drop_last()));
    }
}

/// From a consistent search state, every solution still to be emitted
/// carries exactly the letters of `target` and passes the validity filter.
proof fn lemma_outputs_sound(
    cands: Seq<Seq<char>>,
    stack: Seq<(Seq<nat>, int)>,
    path: Seq<int>,
    target: Seq<nat>,
)
    requires
        cands_ok(cands),
        frames_ok(cands, stack),
        target.len() == 26,
        stack.len() == 0 ==> path.len() == 0,
        stack.len() > 0 ==> path.len() + 1 == stack.len(),
        forall|i: int| 0 <= i < path.len() ==> 0 <= #[trigger] path[i] < cands.len(),
        forall|k: int|
            0 <= k < stack.len() ==> add_counts(
                (#[trigger] stack[k]).0,
                path_counts(cands, path.take(k)),
            ) == target,
    ensures
        forall|a: int|
            0 <= a < outputs(cands, stack, path).len() ==> solution_counts(
                #[trigger] outputs(cands, stack, path)[a],
            ) == target && valid_solution(outputs(cands, stack, path)[a]),
    decreases stack_measure(cands.len(), stack),
{
    if stack.len() > 0 {
        let top = stack.last();
        let rem = top.0;
        let cur = top.1;
        let popped = stack.drop_last();
        let path1 = if path.len() > 0 {
            path.drop_last()
        } else {
            path
        };
        assert(frames_ok(cands, popped)) by {
            assert forall|k: int| 0 <= k < popped.len() implies 0 <= (#[trigger] popped[k]).1
                <= cands.len() && popped[k].0.len() == 26 by {
                assert(popped[k] == stack[k]);
            }
        }
        assert forall|i: int| 0 <= i < path1.len() implies 0 <= #[trigger] path1[i]
            < cands.len() by {
            assert(path1[i] == path[i]);
        }
        assert forall|k: int| 0 <= k < popped.len() implies add_counts(
            (#[trigger] popped[k]).0,
            path_counts(cands, path1.take(k)),
        ) == target by {
            assert(popped[k] == stack[k]);
            assert(path1.take(k) =~= path.take(k));
        }
        lemma_measure_pop(cands.len(), stack);
        if all_zero(rem) {
            lemma_outputs_sound(cands, popped, path1, target);
            let sol = path_solution(cands, path);
            assert(path.take(path.len() as int) =~= path);
            assert(add_counts(rem, path_counts(cands, path)) == target);
            assert(path_counts(cands, path) =~= add_counts(rem, path_counts(cands, path)));
            lemma_solution_counts_path(cands, path);
            assert(solution_counts(sol) == target);
            if valid_solution(sol) {
                assert forall|a: int|
                    0 <= a < outputs(cands, stack, path).len() implies solution_counts(
                    #[trigger] outputs(cands, stack, path)[a],
                ) == target && valid_solution(outputs(cands, stack, path)[a]) by {
                    if a == 0 {
                        assert(outputs(cands, stack, path)[0] == sol);
                    } else {
                        assert(outputs(cands, stack, path)[a] == outputs(cands, popped, path1)[a
                            - 1]);
                    }
                }
            } else {
                assert(outputs(cands, stack, path) == outputs(cands, popped, path1));
            }
        } else if cur < cands.len() {
            let advanced = stack.update(stack.len() - 1, (rem, cur + 1));
            assert(frames_ok(cands, advanced)) by {
                assert forall|k: int|
                    0 <= k < advanced.len() implies 0 <= (#[trigger] advanced[k]).1 <= cands.len()
                    && advanced[k].0.len() == 26 by {
                    if k < advanced.len() - 1 {
                        assert(advanced[k] == stack[k]);
                    }
                }
            }
            assert forall|k: int| 0 <= k < advanced.len() implies add_counts(
                (#[trigger] advanced[k]).0,
                path_counts(cands, path.take(k)),
            ) == target by {
                if k < advanced.len() - 1 {
                    assert(advanced[k] == stack[k]);
                } else {
                    assert(advanced[k].0 == rem);
                    assert(add_counts(stack[k].0, path_counts(cands, path.take(k))) == target);
                }
            }
            lemma_step_measures(cands, stack);
            let cfreq = counts_of(cands[cur]);
            if fits(cfreq, rem) {
                let pushed = advanced.push((sub_counts(rem, cfreq), 0int));
                let path2 = path.push(cur);
                assert(frames_ok(cands, pushed)) by {
                    assert forall|k: int|
                        0 <= k < pushed.len() implies 0 <= (#[trigger] pushed[k]).1 <= cands.len()
                        && pushed[k].0.len() == 26 by {
                        if k < pushed.len() - 1 {
                            assert(pushed[k] == advanced[k]);
                        }
                    }
                }
                assert forall|i: int| 0 <= i < path2.len() implies 0 <= #[trigger] path2[i]
                    < cands.len() by {
                    if i < path.len() {
                        assert(path2[i] == path[i]);
                    }
                }
                assert forall|k: int| 0 <= k < pushed.len() implies add_counts(
                    (#[trigger] pushed[k]).0,
                    path_counts(cands, path2.take(k)),
                ) == target by {
                    if k < pushed.len() - 1 {
                        assert(pushed[k] == advanced[k]);
                        assert(path2.take(k) =~= path.take(k));
                        assert(add_counts(advanced[k].0, path_counts(cands, path.take(k)))
                            == target);
                    } else {
                        assert(pushed[k].0 == sub_counts(rem, cfreq));
                        assert(path2.take(k) =~= path2);
                        assert(path2.drop_last() =~= path);
                        assert(path_counts(cands, path2) == add_counts(
                            path_counts(cands, path),
                            cfreq,
                        ));
                        assert(path.take(path.len() as int) =~= path);
                        assert(add_counts(rem, path_counts(cands, path)) == target);
                        assert(add_counts(
                            sub_counts(rem, cfreq),
                            add_counts(path_counts(cands, path), cfreq),
                        ) =~= add_counts(rem, path_counts(cands, path)));
                    }
                }
                lemma_outputs_sound(cands, pushed, path2, target);
                assert(outputs(cands, stack, path) == outputs(cands, pushed, path2));
            } else {
                lemma_outputs_sound(cands, advanced, path, target);
                assert(outputs(cands, stack, path) == outputs(cands, advanced, path));
            }
        } else {
            lemma_outputs_sound(cands, popped, path1, target);
            assert(outputs(cands, stack, path) == outputs(cands, popped, path1));
        }
    } else {
        assert(outputs(cands, stack, path) =~= Seq::<Seq<Seq<char>>>::empty());
    }
}

/// Every emitted solution's combined letter multiset equals the phrase's
/// letter multiset exactly.
pub proof fn lemma_solution_letters(words: Seq<Seq<char>>, phrase: Seq<char>)
    ensures
        forall|a: int|
            0 <= a < engine_outputs(words, phrase).len() ==> solution_counts(
                #[trigger] engine_outputs(words, phrase)[a],
            ) == counts_of(phrase),
{
    lemma_engine_outputs_sound(words, phrase);
}

/// Every emitted solution passes the validity filter: more than three
/// words only when at most half of them are short.
pub proof fn lemma_solutions_filtered(words: Seq<Seq<char>>, phrase: Seq<char>)
    ensures
        forall|a: int|
            0 <= a < engine_outputs(words, phrase).len() ==> valid_solution(
                #[trigger] engine_outputs(words, phrase)[a],
            ),
{
    lemma_engine_outputs_sound(words, phrase);
}

/// Soundness of the whole engine pipeline for one phrase.
proof fn lemma_engine_outputs_sound(words: Seq<Seq<char>>, phrase: Seq<char>)
    ensures
        forall|a: int|
            0 <= a < engine_outputs(words, phrase).len() ==> solution_counts(
                #[trigger] engine_outputs(words, phrase)[a],
            ) == counts_of(phrase) && valid_solution(engine_outputs(words, phrase)[a]),
{
    let target = counts_of(phrase);
    let cands = sort_words(filter_fits(words, target));
    assert(cands_ok(cands)) by {
        assert forall|j: int| 0 <= j < cands.len() implies !all_zero(
            counts_of(#[trigger] cands[j]),
        ) by {
            lemma_sort_words_elem(filter_fits(words, target), cands[j]);
            lemma_filter_fits_elem(words, target, cands[j]);
        }
    }
    let st = seq![(target, 0int)];
    let e = Seq::<int>::empty();
    assert(frames_ok(cands, st));
    assert(e.take(0) =~= e);
    assert(add_counts(target, path_counts(cands, e.take(0))) =~= target);
    lemma_outputs_sound(cands, st, e, target);
}

} // verus!
