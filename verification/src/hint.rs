use vstd::prelude::*;
use crate::errors::WordError;
use crate::words::all_lower;
use crate::words::letters_ok;
use crate::words::norm_word;
use crate::words::normalize_word;

verus! {

/// What a game reports about one position of a guess: the letter is in the
/// right place, elsewhere in the answer, or not available at all.
#[derive(Debug, Clone, Copy, PartialEq, Eq, Structural)]
pub enum Hint {
    Correct,
    Present,
    Absent,
}

/// How often the letter `ch` occurs in the first `n` letters of `w`.
pub open spec fn count_upto(w: Seq<u8>, ch: u8, n: int) -> nat
    decreases n,
{
    if n <= 0 {
        0
    } else {
        count_upto(w, ch, n - 1) + if w[n - 1] == ch {
            1nat
        } else {
            0nat
        }
    }
}

/// How often the letter `ch` occurs in `w`.
pub open spec fn count_letter(w: Seq<u8>, ch: u8) -> nat {
    count_upto(w, ch, w.len() as int)
}

/// How many of the first `n` positions have the letter `ch` correct:
/// guess and answer both hold `ch` there.
pub open spec fn correct_count(g: Seq<u8>, a: Seq<u8>, ch: u8, n: int) -> nat
    decreases n,
{
    if n <= 0 {
        0
    } else {
        correct_count(g, a, ch, n - 1) + if g[n - 1] == ch && a[n - 1] == ch {
            1nat
        } else {
            0nat
        }
    }
}

/// How many of the first `n` positions guess `ch` where the answer differs.
pub open spec fn miss_count(g: Seq<u8>, a: Seq<u8>, ch: u8, n: int) -> nat
    decreases n,
{
    if n <= 0 {
        0
    } else {
        miss_count(g, a, ch, n - 1) + if g[n - 1] == ch && a[n - 1] != ch {
            1nat
        } else {
            0nat
        }
    }
}

/// How many occurrences of `ch` in the answer are left for Present markings
/// once every correct position has consumed one.
pub open spec fn avail(g: Seq<u8>, a: Seq<u8>, ch: u8) -> int {
    count_letter(a, ch) - correct_count(g, a, ch, a.len() as int)
}

/// The hint at position `i`: Correct where guess and answer agree; otherwise
/// Present as long as the earlier non-correct occurrences of the same letter
/// have not used up the answer's remaining occurrences, else Absent.
pub open spec fn hint_at(g: Seq<u8>, a: Seq<u8>, i: int) -> Hint {
    if g[i] == a[i] {
        Hint::Correct
    } else if miss_count(g, a, g[i], i) < avail(g, a, g[i]) {
        Hint::Present
    } else {
        Hint::Absent
    }
}

/// The full hint pattern for a normalized guess against a normalized answer.
pub open spec fn hint_spec(g: Seq<u8>, a: Seq<u8>) -> Seq<Hint> {
    Seq::new(g.len(), |i: int| hint_at(g, a, i))
}

pub proof fn lemma_count_upto_le(w: Seq<u8>, ch: u8, n1: int, n2: int)
    requires
        n1 <= n2,
    ensures
        count_upto(w, ch, n1) <= count_upto(w, ch, n2),
    decreases n2 - n1,
{
    if n1 < n2 {
        lemma_count_upto_le(w, ch, n1, n2 - 1);
    }
}

/// There cannot be more correct positions for a letter than occurrences of it
/// in the answer.
pub proof fn lemma_correct_le_count(g: Seq<u8>, a: Seq<u8>, ch: u8, n: int)
    ensures
        correct_count(g, a, ch, n) <= count_upto(a, ch, n),
    decreases n,
{
    if n > 0 {
        lemma_correct_le_count(g, a, ch, n - 1);
    }
}

/// A position is marked Correct exactly when guess and answer agree there.
pub proof fn lemma_hint_correct_iff(g: Seq<u8>, a: Seq<u8>, i: int)
    requires
        g.len() == a.len(),
        0 <= i < g.len(),
    ensures
        (hint_spec(g, a)[i] == Hint::Correct) <==> g[i] == a[i],
{
}

/// How many of the first `n` positions guess `ch` and are marked Present.
pub open spec fn present_count(g: Seq<u8>, a: Seq<u8>, ch: u8, n: int) -> nat
    decreases n,
{
    if n <= 0 {
        0
    } else {
        present_count(g, a, ch, n - 1) + if g[n - 1] == ch && hint_at(g, a, n - 1)
            == Hint::Present {
            1nat
        } else {
            0nat
        }
    }
}

/// How many of the first `n` positions guess `ch` and are marked Correct or
/// Present.
pub open spec fn hit_count(g: Seq<u8>, a: Seq<u8>, ch: u8, n: int) -> nat
    decreases n,
{
    if n <= 0 {
        0
    } else {
        hit_count(g, a, ch, n - 1) + if g[n - 1] == ch && hint_at(g, a, n - 1) != Hint::Absent {
            1nat
        } else {
            0nat
        }
    }
}

proof fn lemma_present_eq_min(g: Seq<u8>, a: Seq<u8>, ch: u8, n: int)
    requires
        g.len() == a.len(),
        0 <= n <= g.len(),
    ensures
        present_count(g, a, ch, n) == if miss_count(g, a, ch, n) <= avail(g, a, ch) {
            miss_count(g, a, ch, n) as int
        } else {
            avail(g, a, ch)
        },
        avail(g, a, ch) >= 0,
    decreases n,
{
    lemma_correct_le_count(g, a, ch, a.len() as int);
    if n > 0 {
        lemma_present_eq_min(g, a, ch, n - 1);
    }
}

/// The budget bound: the number of positions where a letter is marked
/// Correct or Present never exceeds that letter's occurrences in the answer.
pub proof fn lemma_hint_letter_budget(g: Seq<u8>, a: Seq<u8>, ch: u8)
    requires
        g.len() == a.len(),
    ensures
        hit_count(g, a, ch, g.len() as int) <= count_letter(a, ch),
{
    let n = g.len() as int;
    lemma_hit_split(g, a, ch, n);
    lemma_present_eq_min(g, a, ch, n);
    lemma_correct_le_count(g, a, ch, n);
}

proof fn lemma_hit_split(g: Seq<u8>, a: Seq<u8>, ch: u8, n: int)
    requires
        g.len() == a.len(),
        0 <= n <= g.len(),
    ensures
        hit_count(g, a, ch, n) == correct_count(g, a, ch, n) + present_count(g, a, ch, n),
    decreases n,
{
    if n > 0 {
        lemma_hit_split(g, a, ch, n - 1);
    }
}

/// The counter state after the correct positions of the first `i` places have
/// consumed their occurrences.
pub open spec fn counts_after_correct(
    cnts: Seq<usize>,
    g: Seq<u8>,
    a: Seq<u8>,
    i: int,
) -> bool {
    forall|c: u8|
        c < 26 ==> #[trigger] cnts[c as int] == count_letter(a, c) - correct_count(g, a, c, i)
            && correct_count(g, a, c, i) <= count_upto(a, c, i)
}

/// The counter state while the first `i` places have consumed their Present
/// markings: what is left of each letter's budget.
pub open spec fn counts_after_present(cnts: Seq<usize>, g: Seq<u8>, a: Seq<u8>, i: int) -> bool {
    forall|c: u8|
        c < 26 ==> #[trigger] cnts[c as int] == (if miss_count(g, a, c, i) <= avail(g, a, c) {
            avail(g, a, c) - miss_count(g, a, c, i)
        } else {
            0int
        }) && avail(g, a, c) >= 0
}

/// Generates the hint pattern a game would emit for `guess` against a known
/// `answer`. The answer is validated first, then the guess, both against the
/// answer's length.
pub fn get_hint(guess: &str, answer: &str) -> (r: Result<Vec<Hint>, WordError>)
    ensures
        match r {
            Ok(h) => all_lower(guess@) && all_lower(answer@) && guess@.len() == answer@.len()
                && h@ == hint_spec(norm_word(guess@), norm_word(answer@)),
            Err(WordError::NotLowerAlpha { word: w }) => (!all_lower(answer@) && w@ == answer@)
                || (all_lower(answer@) && !all_lower(guess@) && w@ == guess@),
            Err(WordError::WrongWordLen { word: w, expected_len: e }) => all_lower(answer@)
                && all_lower(guess@) && guess@.len() != answer@.len() && w@ == guess@ && e
                == answer@.len(),
        },
{
    let len = answer.unicode_len();
    let na = match normalize_word(len, answer) {
        Err(e) => { return Err(e) },
        Ok(v) => v,
    };
    let ng = match normalize_word(len, guess) {
        Err(e) => { return Err(e) },
        Ok(v) => v,
    };
    Ok(hint_for(&ng, &na))
}

/// The two-pass hint computation on normalized words: count the answer's
/// letters, consume one count for every correct position, then walk the
/// remaining positions in order, consuming counts for Present markings.
fn hint_for(g: &Vec<u8>, a: &Vec<u8>) -> (r: Vec<Hint>)
    requires
        g@.len() == a@.len(),
        letters_ok(g@),
        letters_ok(a@),
    ensures
        r@ == hint_spec(g@, a@),
{
    let n = a.len();
    let mut counts: Vec<usize> = vec![0; 26];
    let mut i: usize = 0;
    while i < n
        invariant
            i <= n,
            n == a@.len(),
            letters_ok(a@),
            counts@.len() == 26,
            forall|c: u8|
                c < 26 ==> #[trigger] counts@[c as int] == count_upto(a@, c, i as int) && counts@[c
                    as int] <= i,
        decreases n - i,
    {
        let ch = a[i];
        counts[ch as usize] = counts[ch as usize] + 1;
        proof {
            assert forall|c: u8| c < 26 implies #[trigger] count_upto(a@, c, i + 1) == count_upto(
                a@,
                c,
                i as int,
            ) + if a@[i as int] == c {
                1int
            } else {
                0int
            } by {}
        }
        i = i + 1;
    }
    // consume one count for every correct position
    i = 0;
    while i < n
        invariant
            i <= n,
            n == a@.len(),
            n == g@.len(),
            letters_ok(a@),
            letters_ok(g@),
            counts@.len() == 26,
            counts_after_correct(counts@, g@, a@, i as int),
        decreases n - i,
    {
        let ghost i0 = i as int;
        let ghost cnt0 = counts@;
        if g[i] == a[i] {
            let ch = g[i];
            proof {
                lemma_count_upto_le(a@, ch, i + 1, n as int);
                assert(count_upto(a@, ch, i + 1) == count_upto(a@, ch, i as int) + 1);
                assert(counts@[ch as int] >= 1);
            }
            counts[ch as usize] = counts[ch as usize] - 1;
        }
        proof {
            assert forall|c: u8| c < 26 implies #[trigger] counts@[c as int] == count_letter(
                a@,
                c,
            ) - correct_count(g@, a@, c, i0 + 1) && correct_count(g@, a@, c, i0 + 1) <= count_upto(
                a@,
                c,
                i0 + 1,
            ) by {
                assert(cnt0[c as int] == count_letter(a@, c) - correct_count(g@, a@, c, i0));
                assert(correct_count(g@, a@, c, i0 + 1) == correct_count(g@, a@, c, i0) + if g@[i0]
                    == c && a@[i0] == c {
                    1int
                } else {
                    0int
                });
                assert(count_upto(a@, c, i0 + 1) == count_upto(a@, c, i0) + if a@[i0] == c {
                    1int
                } else {
                    0int
                });
                if !(g@[i0] == a@[i0] && c == g@[i0]) {
                    assert(counts@[c as int] == cnt0[c as int]);
                }
            }
            assert(counts_after_correct(counts@, g@, a@, i0 + 1));
        }
        i = i + 1;
    }
    proof {
        assert forall|c: u8| c < 26 implies #[trigger] counts@[c as int] == (if miss_count(
            g@,
            a@,
            c,
            0,
        ) <= avail(g@, a@, c) {
            avail(g@, a@, c) - miss_count(g@, a@, c, 0)
        } else {
            0int
        }) && avail(g@, a@, c) >= 0 by {
            lemma_correct_le_count(g@, a@, c, n as int);
            assert(counts@[c as int] == count_letter(a@, c) - correct_count(g@, a@, c, n as int));
        }
        assert(counts_after_present(counts@, g@, a@, 0));
    }
    // walk the remaining positions in order
    let mut res: Vec<Hint> = Vec::new();
    i = 0;
    while i < n
        invariant
            i <= n,
            n == a@.len(),
            n == g@.len(),
            letters_ok(a@),
            letters_ok(g@),
            counts@.len() == 26,
            res@.len() == i,
            forall|j: int| 0 <= j < i ==> #[trigger] res@[j] == hint_at(g@, a@, j),
            counts_after_present(counts@, g@, a@, i as int),
        decreases n - i,
    {
        let ghost i0 = i as int;
        let ghost cnt0 = counts@;
        if g[i] == a[i] {
            res.push(Hint::Correct);
        } else {
            let ch = g[i];
            proof {
                assert(cnt0[ch as int] == (if miss_count(g@, a@, ch, i0) <= avail(g@, a@, ch) {
                    avail(g@, a@, ch) - miss_count(g@, a@, ch, i0)
                } else {
                    0int
                }));
            }
            if counts[ch as usize] > 0 {
                counts[ch as usize] = counts[ch as usize] - 1;
                res.push(Hint::Present);
                proof {
                    assert(miss_count(g@, a@, ch, i0) < avail(g@, a@, ch));
                    assert(hint_at(g@, a@, i0) == Hint::Present);
                }
            } else {
                res.push(Hint::Absent);
                proof {
                    assert(miss_count(g@, a@, ch, i0) >= avail(g@, a@, ch));
                    assert(hint_at(g@, a@, i0) == Hint::Absent);
                }
            }
        }
        proof {
            assert forall|c: u8| c < 26 implies #[trigger] counts@[c as int] == (if miss_count(
                g@,
                a@,
                c,
                i0 + 1,
            ) <= avail(g@, a@, c) {
                avail(g@, a@, c) - miss_count(g@, a@, c, i0 + 1)
            } else {
                0int
            }) && avail(g@, a@, c) >= 0 by {
                assert(cnt0[c as int] == (if miss_count(g@, a@, c, i0) <= avail(g@, a@, c) {
                    avail(g@, a@, c) - miss_count(g@, a@, c, i0)
                } else {
                    0int
                }));
                assert(miss_count(g@, a@, c, i0 + 1) == miss_count(g@, a@, c, i0) + if g@[i0] == c
                    && a@[i0] != c {
                    1int
                } else {
                    0int
                });
                if !(g@[i0] != a@[i0] && c == g@[i0]) {
                    assert(counts@[c as int] == cnt0[c as int]);
                }
            }
            assert(counts_after_present(counts@, g@, a@, i0 + 1));
        }
        i = i + 1;
    }
    proof {
        assert(res@ =~= hint_spec(g@, a@));
    }
    res
}

} // verus!
