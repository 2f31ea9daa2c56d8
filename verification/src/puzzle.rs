use vstd::prelude::*;
use vstd::set_lib::lemma_len_subset;
use vstd::set_lib::lemma_set_subset_finite;
use vstd::set_lib::lemma_subset_equality;
use crate::bit_set::lemma_set_of_bits_finite;
use crate::bit_set::lemma_set_of_bits_injective;
use crate::bit_set::BitSet32;
use crate::hint::count_letter;
use crate::hint::count_upto;
use crate::hint::Hint;
use crate::errors::GuessError;
use crate::errors::SolveErr;
use crate::words::all_lower;
use crate::words::clone_word;
use crate::words::letters_ok;
use crate::words::lex_lt;
use crate::words::norm_word;
use crate::words::seq_views;
use crate::words::valid_word;
use crate::words::Dictionary;

verus! {

broadcast use lemma_set_of_bits_finite;

/// The mathematical state of a puzzle: the dictionary, the cached feasible
/// words, one set of admitted letters per position, and an inclusive
/// occurrence range per letter.
#[verifier::ext_equal]
pub struct PuzzleModel {
    pub words: Seq<Seq<u8>>,
    pub feasible: Seq<Seq<u8>>,
    pub slots: Seq<Set<u8>>,
    pub counts: Seq<(int, int)>,
}

/// A word of the right shape for a puzzle of `len` letters.
pub open spec fn word_shape(w: Seq<u8>, len: int) -> bool {
    w.len() == len && letters_ok(w)
}

pub open spec fn model_wf(m: PuzzleModel) -> bool {
    &&& m.counts.len() == 26
    &&& 1 <= m.slots.len()
    &&& forall|i: int|
        0 <= i < m.slots.len() ==> (#[trigger] m.slots[i]).finite() && m.slots[i].subset_of(
            alpha_set(),
        )
    &&& forall|k: int|
        0 <= k < m.feasible.len() ==> word_shape(#[trigger] m.feasible[k], m.slots.len() as int)
    &&& forall|k: int|
        0 <= k < m.words.len() ==> word_shape(#[trigger] m.words[k], m.slots.len() as int)
    &&& forall|c: int| 0 <= c < 26 ==> (#[trigger] m.counts[c]).0 >= 0 && m.counts[c].1 >= 0
}

/// A word is feasible when every letter is admitted at its position and every
/// letter's occurrence count lies within that letter's range.
pub open spec fn feasible_word(m: PuzzleModel, w: Seq<u8>) -> bool {
    &&& w.len() == m.slots.len()
    &&& forall|i: int| 0 <= i < w.len() ==> m.slots[i].contains(#[trigger] w[i])
    &&& forall|c: u8|
        c < 26 ==> (#[trigger] m.counts[c as int]).0 <= count_letter(w, c) && count_letter(w, c)
            <= m.counts[c as int].1
}

pub open spec fn feasible_pred(m: PuzzleModel) -> spec_fn(Seq<u8>) -> bool {
    |w: Seq<u8>| feasible_word(m, w)
}

/// The feasible words of `m`, re-filtered under `m`'s own constraints.
pub open spec fn filter_feasible(m: PuzzleModel) -> Seq<Seq<u8>> {
    m.feasible.filter(feasible_pred(m))
}

/// The letters that occur at position `i` across the words `fws`.
pub open spec fn mask_at(fws: Seq<Seq<u8>>, i: int) -> Set<u8> {
    Set::new(|c: u8| exists|k: int| 0 <= k < fws.len() && (#[trigger] fws[k])[i] == c)
}

/// How many of the first `n` slots admit the letter `c`.
pub open spec fn count_slots_with(slots: Seq<Set<u8>>, c: u8, n: int) -> nat
    decreases n,
{
    if n <= 0 {
        0
    } else {
        count_slots_with(slots, c, n - 1) + if slots[n - 1].contains(c) {
            1nat
        } else {
            0nat
        }
    }
}

/// Occurrence forcing for one letter: when at most `min` slots admit `c`,
/// each of those slots must be `c`, so they collapse to the singleton.
pub open spec fn force_letter(slots: Seq<Set<u8>>, min: int, c: u8) -> Seq<Set<u8>> {
    if count_slots_with(slots, c, slots.len() as int) <= min {
        Seq::new(
            slots.len(),
            |i: int|
                if slots[i].contains(c) {
                    Set::empty().insert(c)
                } else {
                    slots[i]
                },
        )
    } else {
        slots
    }
}

/// Occurrence forcing for the letters below `c`, applied in ascending order.
pub open spec fn force_upto(slots: Seq<Set<u8>>, counts: Seq<(int, int)>, c: int) -> Seq<Set<u8>>
    decreases c,
{
    if c <= 0 {
        slots
    } else {
        force_letter(force_upto(slots, counts, c - 1), counts[c - 1].0, (c - 1) as u8)
    }
}

/// One full pass of constraint propagation: re-filter the feasible words,
/// intersect every slot with the letters the remaining words use there, and
/// apply occurrence forcing for every letter.
pub open spec fn step(m: PuzzleModel) -> PuzzleModel {
    let fws = filter_feasible(m);
    let narrowed = Seq::new(
        m.slots.len(),
        |i: int| m.slots[i].intersect(mask_at(fws, i)),
    );
    PuzzleModel { feasible: fws, slots: force_upto(narrowed, m.counts, 26), ..m }
}

/// The total size of the first `n` slot sets.
pub open spec fn slots_size(slots: Seq<Set<u8>>, n: int) -> nat
    decreases n,
{
    if n <= 0 {
        0
    } else {
        slots_size(slots, n - 1) + slots[n - 1].len()
    }
}

/// A measure that every proper propagation pass strictly shrinks.
pub open spec fn measure(m: PuzzleModel) -> nat {
    slots_size(m.slots, m.slots.len() as int) + m.feasible.len()
}

// ---------------------------------------------------------------------------
// sequence filter helpers
// ---------------------------------------------------------------------------
/// Every element of a filtered sequence is an element of the original.
pub proof fn lemma_filter_elems<A>(s: Seq<A>, pred: spec_fn(A) -> bool)
    ensures
        forall|i: int|
            0 <= i < s.filter(pred).len() ==> exists|j: int|
                0 <= j < s.len() && #[trigger] s.filter(pred)[i] == s[j],
    decreases s.len(),
{
    reveal(Seq::filter);
    if s.len() != 0 {
        let d = s.drop_last();
        lemma_filter_elems(d, pred);
        assert forall|i: int| 0 <= i < s.filter(pred).len() implies exists|j: int|
            0 <= j < s.len() && #[trigger] s.filter(pred)[i] == s[j] by {
            if pred(s.last()) && i == s.filter(pred).len() - 1 {
                assert(s.filter(pred)[i] == s[s.len() - 1]);
            } else {
                assert(s.filter(pred)[i] == d.filter(pred)[i]);
                let j = choose|j: int| 0 <= j < d.len() && d.filter(pred)[i] == d[j];
                assert(s.filter(pred)[i] == s[j]);
            }
        }
    }
}

/// A sequence whose elements all satisfy the predicate filters to itself.
pub proof fn lemma_filter_all_true<A>(s: Seq<A>, pred: spec_fn(A) -> bool)
    requires
        forall|i: int| 0 <= i < s.len() ==> pred(#[trigger] s[i]),
    ensures
        s.filter(pred) == s,
    decreases s.len(),
{
    reveal(Seq::filter);
    if s.len() != 0 {
        let d = s.drop_last();
        lemma_filter_all_true(d, pred);
        assert(s.filter(pred) =~= s);
    } else {
        assert(s.filter(pred) =~= s);
    }
}

/// A filter that keeps the whole length keeps the whole sequence.
pub proof fn lemma_filter_len_eq<A>(s: Seq<A>, pred: spec_fn(A) -> bool)
    requires
        s.filter(pred).len() == s.len(),
    ensures
        s.filter(pred) == s,
    decreases s.len(),
{
    reveal(Seq::filter);
    if s.len() != 0 {
        let d = s.drop_last();
        d.lemma_filter_len(pred);
        if pred(s.last()) {
            lemma_filter_len_eq(d, pred);
            assert(s.filter(pred) =~= s);
        } else {
            assert(s.filter(pred).len() < s.len());
        }
    } else {
        assert(s.filter(pred) =~= s);
    }
}

// ---------------------------------------------------------------------------
// facts about one propagation pass
// ---------------------------------------------------------------------------
pub proof fn lemma_force_upto_subset(slots: Seq<Set<u8>>, counts: Seq<(int, int)>, c: int)
    ensures
        force_upto(slots, counts, c).len() == slots.len(),
        forall|i: int|
            0 <= i < slots.len() ==> (#[trigger] force_upto(slots, counts, c)[i]).subset_of(
                slots[i],
            ),
    decreases c,
{
    if c > 0 {
        lemma_force_upto_subset(slots, counts, c - 1);
        let prev = force_upto(slots, counts, c - 1);
        let cur = force_letter(prev, counts[c - 1].0, (c - 1) as u8);
        assert forall|i: int| 0 <= i < slots.len() implies (#[trigger] cur[i]).subset_of(
            slots[i],
        ) by {
            assert(prev[i].subset_of(slots[i]));
            if count_slots_with(prev, (c - 1) as u8, prev.len() as int) <= counts[c - 1].0 {
                if prev[i].contains((c - 1) as u8) {
                    assert(cur[i] == Set::empty().insert((c - 1) as u8));
                    assert(cur[i].subset_of(prev[i]));
                } else {
                    assert(cur[i] == prev[i]);
                }
            } else {
                assert(cur[i] == prev[i]);
            }
        }
    }
}

pub proof fn lemma_slots_size_mono(s1: Seq<Set<u8>>, s2: Seq<Set<u8>>, n: int)
    requires
        s1.len() == s2.len(),
        n <= s1.len(),
        forall|i: int| 0 <= i < s1.len() ==> (#[trigger] s1[i]).subset_of(s2[i]),
        forall|i: int| 0 <= i < s2.len() ==> (#[trigger] s2[i]).finite(),
    ensures
        slots_size(s1, n) <= slots_size(s2, n),
        forall|j: int|
            0 <= j < n && s1[j] != s2[j] ==> slots_size(s1, n) < slots_size(s2, n),
    decreases n,
{
    if n > 0 {
        lemma_slots_size_mono(s1, s2, n - 1);
        lemma_set_subset_finite(s2[n - 1], s1[n - 1]);
        lemma_len_subset(s1[n - 1], s2[n - 1]);
        if s1[n - 1] != s2[n - 1] {
            if s1[n - 1].len() == s2[n - 1].len() {
                lemma_subset_equality(s1[n - 1], s2[n - 1]);
            }
        }
        assert forall|j: int|
            0 <= j < n && s1[j] != s2[j] implies slots_size(s1, n) < slots_size(s2, n) by {
            if j < n - 1 {
                assert(slots_size(s1, n - 1) < slots_size(s2, n - 1));
            } else {
                if s1[n - 1].len() == s2[n - 1].len() {
                    lemma_subset_equality(s1[n - 1], s2[n - 1]);
                }
            }
        }
    }
}

/// One pass keeps the dictionary and the ranges, only narrows the slots and
/// the feasible words, and strictly shrinks the measure unless it is at a
/// fixed point.
pub proof fn lemma_step_shrinks(m: PuzzleModel)
    requires
        model_wf(m),
    ensures
        step(m).words == m.words,
        step(m).counts == m.counts,
        step(m).slots.len() == m.slots.len(),
        forall|i: int|
            0 <= i < m.slots.len() ==> (#[trigger] step(m).slots[i]).subset_of(m.slots[i]),
        step(m).feasible.len() <= m.feasible.len(),
        model_wf(step(m)),
        step(m) != m ==> measure(step(m)) < measure(m),
{
    let fws = filter_feasible(m);
    let narrowed = Seq::new(m.slots.len(), |i: int| m.slots[i].intersect(mask_at(fws, i)));
    let forced = force_upto(narrowed, m.counts, 26);
    m.feasible.lemma_filter_len(feasible_pred(m));
    lemma_filter_elems(m.feasible, feasible_pred(m));
    lemma_force_upto_subset(narrowed, m.counts, 26);
    assert forall|i: int| 0 <= i < m.slots.len() implies (#[trigger] forced[i]).subset_of(
        m.slots[i],
    ) by {
        assert(narrowed[i].subset_of(m.slots[i]));
    }
    assert forall|i: int| 0 <= i < m.slots.len() implies (#[trigger] forced[i]).finite()
        && forced[i].subset_of(alpha_set()) by {
        lemma_set_subset_finite(m.slots[i], forced[i]);
    }
    assert forall|k: int| 0 <= k < fws.len() implies word_shape(
        #[trigger] fws[k],
        m.slots.len() as int,
    ) by {
        let j = choose|j: int| 0 <= j < m.feasible.len() && fws[k] == m.feasible[j];
        assert(word_shape(m.feasible[j], m.slots.len() as int));
    }
    assert(model_wf(step(m)));
    if step(m) != m {
        lemma_slots_size_mono(forced, m.slots, m.slots.len() as int);
        if fws.len() == m.feasible.len() {
            lemma_filter_len_eq(m.feasible, feasible_pred(m));
            assert(fws == m.feasible);
            // the slots must differ somewhere
            if forced =~= m.slots {
                assert(step(m) =~= m);
            }
            let j = choose|j: int| 0 <= j < m.slots.len() && forced[j] != m.slots[j];
            assert(slots_size(forced, m.slots.len() as int) < slots_size(
                m.slots,
                m.slots.len() as int,
            ));
        }
    }
}

/// Propagation to a fixed point: repeat [`step`] until nothing changes.
pub open spec fn reduce_spec(m: PuzzleModel) -> PuzzleModel
    decreases measure(m),
        when model_wf(m)
        via reduce_spec_decreases
{
    if step(m) == m {
        m
    } else {
        reduce_spec(step(m))
    }
}

#[via_fn]
proof fn reduce_spec_decreases(m: PuzzleModel) {
    if model_wf(m) && step(m) != m {
        lemma_step_shrinks(m);
    }
}

/// The result of propagation is a fixed point with the same dictionary,
/// ranges, and slot count, and slots narrowed pointwise.
pub proof fn lemma_reduce_spec_props(m: PuzzleModel)
    requires
        model_wf(m),
    ensures
        model_wf(reduce_spec(m)),
        step(reduce_spec(m)) == reduce_spec(m),
        reduce_spec(m).words == m.words,
        reduce_spec(m).counts == m.counts,
        reduce_spec(m).slots.len() == m.slots.len(),
        forall|i: int|
            0 <= i < m.slots.len() ==> (#[trigger] reduce_spec(m).slots[i]).subset_of(m.slots[i]),
        reduce_spec(m).feasible.len() <= m.feasible.len(),
    decreases measure(m),
{
    lemma_step_shrinks(m);
    if step(m) != m {
        lemma_reduce_spec_props(step(m));
    }
}

/// Propagating twice is the same as propagating once.
pub proof fn lemma_reduce_idempotent(m: PuzzleModel)
    requires
        model_wf(m),
    ensures
        reduce_spec(reduce_spec(m)) == reduce_spec(m),
{
    lemma_reduce_spec_props(m);
}

/// After propagation every slot only admits letters that some feasible word
/// of the starting state uses at that position.
pub proof fn lemma_reduce_slots_in_masks(m: PuzzleModel)
    requires
        model_wf(m),
    ensures
        forall|i: int|
            0 <= i < m.slots.len() ==> (#[trigger] reduce_spec(m).slots[i]).subset_of(
                mask_at(m.feasible, i),
            ),
    decreases measure(m),
{
    lemma_step_shrinks(m);
    let fws = filter_feasible(m);
    lemma_filter_elems(m.feasible, feasible_pred(m));
    assert forall|i: int, c: u8|
        0 <= i < m.slots.len() && mask_at(fws, i).contains(c) implies mask_at(
        m.feasible,
        i,
    ).contains(c) by {
        let k = choose|k: int| 0 <= k < fws.len() && (#[trigger] fws[k])[i] == c;
        let j = choose|j: int| 0 <= j < m.feasible.len() && fws[k] == m.feasible[j];
        assert(m.feasible[j][i] == c);
    }
    if step(m) == m {
        // at a fixed point the slots already sit inside the masks
        let narrowed = Seq::new(m.slots.len(), |i: int| m.slots[i].intersect(mask_at(fws, i)));
        lemma_force_upto_subset(narrowed, m.counts, 26);
        assert forall|i: int| 0 <= i < m.slots.len() implies (
        #[trigger] reduce_spec(m).slots[i]).subset_of(mask_at(m.feasible, i)) by {
            assert(m.slots[i] == step(m).slots[i]);
            assert(step(m).slots[i].subset_of(narrowed[i]));
            assert(narrowed[i].subset_of(mask_at(fws, i)));
        }
    } else {
        lemma_reduce_slots_in_masks(step(m));
        assert forall|i: int| 0 <= i < m.slots.len() implies (
        #[trigger] reduce_spec(m).slots[i]).subset_of(mask_at(m.feasible, i)) by {
            assert(reduce_spec(m) == reduce_spec(step(m)));
            assert(reduce_spec(step(m)).slots[i].subset_of(mask_at(step(m).feasible, i)));
            assert(step(m).feasible == fws);
            assert(mask_at(fws, i).subset_of(mask_at(m.feasible, i)));
        }
    }
}

/// Filtering one more element extends the filtered sequence exactly when the
/// element passes the predicate.
pub proof fn lemma_filter_push<A>(s: Seq<A>, pred: spec_fn(A) -> bool, x: A)
    ensures
        s.push(x).filter(pred) == if pred(x) {
            s.filter(pred).push(x)
        } else {
            s.filter(pred)
        },
{
    reveal(Seq::filter);
    assert(s.push(x).drop_last() =~= s);
    assert(s.push(x).last() == x);
}

/// One more word extends a position's mask by that word's letter there.
pub proof fn lemma_mask_extend(fws: Seq<Seq<u8>>, k: int, i: int)
    requires
        0 <= k < fws.len(),
    ensures
        mask_at(fws.take(k + 1), i) == mask_at(fws.take(k), i).insert(fws[k][i]),
{
    let lhs = mask_at(fws.take(k + 1), i);
    let rhs = mask_at(fws.take(k), i).insert(fws[k][i]);
    assert forall|c: u8| lhs.contains(c) implies rhs.contains(c) by {
        let k2 = choose|k2: int|
            0 <= k2 < fws.take(k + 1).len() && (#[trigger] fws.take(k + 1)[k2])[i] == c;
        if k2 < k {
            assert(fws.take(k)[k2][i] == c);
        }
    }
    assert forall|c: u8| rhs.contains(c) implies lhs.contains(c) by {
        if c == fws[k][i] {
            assert(fws.take(k + 1)[k][i] == c);
        } else {
            let k2 = choose|k2: int|
                0 <= k2 < fws.take(k).len() && (#[trigger] fws.take(k)[k2])[i] == c;
            assert(fws.take(k + 1)[k2][i] == c);
        }
    }
    assert(lhs =~= rhs);
}

/// How many of the first `n` positions guess the letter `c` and carry the
/// hint `kind`.
pub open spec fn hint_kind_count(w: Seq<u8>, h: Seq<Hint>, c: u8, kind: Hint, n: int) -> nat
    decreases n,
{
    if n <= 0 {
        0
    } else {
        hint_kind_count(w, h, c, kind, n - 1) + if w[n - 1] == c && h[n - 1] == kind {
            1nat
        } else {
            0nat
        }
    }
}

/// A letter marked Absent without any Correct or Present occurrence does not
/// occur in the answer at all: it leaves every slot.
pub open spec fn removed_everywhere(w: Seq<u8>, h: Seq<Hint>, c: u8) -> bool {
    &&& hint_kind_count(w, h, c, Hint::Absent, w.len() as int) > 0
    &&& hint_kind_count(w, h, c, Hint::Correct, w.len() as int) == 0
    &&& hint_kind_count(w, h, c, Hint::Present, w.len() as int) == 0
}

pub open spec fn removed_set(w: Seq<u8>, h: Seq<Hint>) -> Set<u8> {
    Set::new(|c: u8| removed_everywhere(w, h, c))
}

/// The new occurrence range of one letter: Correct and Present markings
/// raise the minimum to their number; an Absent marking caps the maximum at
/// that same number.
pub open spec fn guess_range(old: (int, int), cc: int, pc: int, ac: int) -> (int, int) {
    let mn = if cc + pc > 0 && cc + pc > old.0 {
        cc + pc
    } else {
        old.0
    };
    let mx = if ac > 0 && cc + pc < old.1 {
        cc + pc
    } else {
        old.1
    };
    (mn, mx)
}

/// The state transition for one guess and its hint, before re-reduction:
/// Correct pins its slot; Present removes the letter from its own slot;
/// a letter that is absent everywhere leaves every slot; and the occurrence
/// ranges tighten per [`guess_range`].
pub open spec fn guess_apply(m: PuzzleModel, w: Seq<u8>, h: Seq<Hint>) -> PuzzleModel {
    let n = w.len() as int;
    PuzzleModel {
        counts: Seq::new(
            m.counts.len(),
            |c: int|
                guess_range(
                    m.counts[c],
                    hint_kind_count(w, h, c as u8, Hint::Correct, n) as int,
                    hint_kind_count(w, h, c as u8, Hint::Present, n) as int,
                    hint_kind_count(w, h, c as u8, Hint::Absent, n) as int,
                ),
        ),
        slots: Seq::new(
            m.slots.len(),
            |i: int|
                if h[i] == Hint::Correct {
                    Set::empty().insert(w[i])
                } else if h[i] == Hint::Present {
                    m.slots[i].remove(w[i]).difference(removed_set(w, h))
                } else {
                    m.slots[i].difference(removed_set(w, h))
                },
        ),
        ..m
    }
}

pub proof fn lemma_hint_kind_count_le(w: Seq<u8>, h: Seq<Hint>, c: u8, kind: Hint, n: int)
    ensures
        hint_kind_count(w, h, c, kind, n) <= if n >= 0 {
            n
        } else {
            0
        },
    decreases n,
{
    if n > 0 {
        lemma_hint_kind_count_le(w, h, c, kind, n - 1);
    }
}

/// Every occurrence of a letter in the guess carries exactly one of the
/// three hints.
pub proof fn lemma_hint_kind_sum(w: Seq<u8>, h: Seq<Hint>, c: u8, n: int)
    requires
        h.len() >= n,
    ensures
        hint_kind_count(w, h, c, Hint::Correct, n) + hint_kind_count(w, h, c, Hint::Present, n)
            + hint_kind_count(w, h, c, Hint::Absent, n) == count_upto(w, c, n),
    decreases n,
{
    if n > 0 {
        lemma_hint_kind_sum(w, h, c, n - 1);
    }
}

pub proof fn lemma_count_upto_bound(w: Seq<u8>, c: u8, n: int)
    ensures
        count_upto(w, c, n) <= if n >= 0 {
            n
        } else {
            0
        },
    decreases n,
{
    if n > 0 {
        lemma_count_upto_bound(w, c, n - 1);
    }
}

/// A letter outside the alphabet of a normalized word is never guessed.
pub proof fn lemma_hint_kind_count_high(w: Seq<u8>, h: Seq<Hint>, c: u8, kind: Hint, n: int)
    requires
        letters_ok(w),
        c >= 26,
        n <= w.len(),
    ensures
        hint_kind_count(w, h, c, kind, n) == 0,
    decreases n,
{
    if n > 0 {
        lemma_hint_kind_count_high(w, h, c, kind, n - 1);
    }
}

pub proof fn lemma_hint_kind_count_mono(w: Seq<u8>, h: Seq<Hint>, c: u8, kind: Hint, n1: int, n2: int)
    requires
        n1 <= n2,
    ensures
        hint_kind_count(w, h, c, kind, n1) <= hint_kind_count(w, h, c, kind, n2),
    decreases n2 - n1,
{
    if n1 < n2 {
        lemma_hint_kind_count_mono(w, h, c, kind, n1, n2 - 1);
    }
}

/// The per-letter tallies of the three hint kinds over the first `i`
/// positions.
pub open spec fn kind_counts_upto(
    ccs: Seq<usize>,
    pcs: Seq<usize>,
    acs: Seq<usize>,
    w: Seq<u8>,
    h: Seq<Hint>,
    i: int,
) -> bool {
    forall|c: u8|
        c < 26 ==> #[trigger] ccs[c as int] == hint_kind_count(w, h, c, Hint::Correct, i)
            && pcs[c as int] == hint_kind_count(w, h, c, Hint::Present, i) && acs[c as int]
            == hint_kind_count(w, h, c, Hint::Absent, i)
}

/// A slot after its own position's update, before the global removals.
pub open spec fn slot_after_position(m: PuzzleModel, w: Seq<u8>, h: Seq<Hint>, i: int) -> Set<
    u8,
> {
    if h[i] == Hint::Correct {
        Set::empty().insert(w[i])
    } else if h[i] == Hint::Present {
        m.slots[i].remove(w[i])
    } else {
        m.slots[i]
    }
}

/// The letters below `c` that are absent everywhere.
pub open spec fn removed_below(w: Seq<u8>, h: Seq<Hint>, c: u8) -> Set<u8> {
    Set::new(|x: u8| x < c && removed_everywhere(w, h, x))
}

/// Some slot has strictly lost a letter against `orig`.
pub open spec fn strictly_narrowed(now: Seq<Set<u8>>, orig: Seq<Set<u8>>) -> bool {
    exists|j: int|
        0 <= j < orig.len() && (#[trigger] now[j]).subset_of(orig[j]) && now[j] != orig[j]
}

/// A strictly sorted (hence duplicate-free) word list.
pub open spec fn feasible_sorted(fe: Seq<Seq<u8>>) -> bool {
    forall|j1: int, j2: int|
        0 <= j1 < j2 < fe.len() ==> lex_lt(#[trigger] fe[j1], #[trigger] fe[j2])
}

/// Every word of `fe` stands in `words`.
pub open spec fn feasible_from(fe: Seq<Seq<u8>>, words: Seq<Seq<u8>>) -> bool {
    forall|k: int| 0 <= k < fe.len() ==> words.contains(#[trigger] fe[k])
}

/// The feasible cache is strictly sorted (hence duplicate-free) and drawn
/// from the dictionary.
pub open spec fn feasible_wf(m: PuzzleModel) -> bool {
    feasible_sorted(m.feasible) && feasible_from(m.feasible, m.words)
}

/// Filtering keeps a strictly sorted sequence strictly sorted.
proof fn lemma_filter_sorted(s: Seq<Seq<u8>>, pred: spec_fn(Seq<u8>) -> bool)
    requires
        forall|i: int, j: int|
            0 <= i < j < s.len() ==> lex_lt(#[trigger] s[i], #[trigger] s[j]),
    ensures
        forall|i: int, j: int|
            0 <= i < j < s.filter(pred).len() ==> lex_lt(
                #[trigger] s.filter(pred)[i],
                #[trigger] s.filter(pred)[j],
            ),
    decreases s.len(),
{
    reveal(Seq::filter);
    if s.len() != 0 {
        let d = s.drop_last();
        lemma_filter_sorted(d, pred);
        lemma_filter_elems(d, pred);
        assert forall|i: int, j: int| 0 <= i < j < s.filter(pred).len() implies lex_lt(
            #[trigger] s.filter(pred)[i],
            #[trigger] s.filter(pred)[j],
        ) by {
            if pred(s.last()) && j == s.filter(pred).len() - 1 {
                assert(s.filter(pred)[i] == d.filter(pred)[i]);
                let j0 = choose|j0: int| 0 <= j0 < d.len() && d.filter(pred)[i] == d[j0];
                assert(d[j0] == s[j0]);
                assert(lex_lt(s[j0], s[s.len() - 1]));
            } else {
                assert(s.filter(pred)[i] == d.filter(pred)[i]);
                assert(s.filter(pred)[j] == d.filter(pred)[j]);
            }
        }
    }
}

/// Propagation keeps the feasible cache sorted and drawn from the dictionary.
pub proof fn lemma_reduce_keeps_feasible_wf(m: PuzzleModel)
    requires
        model_wf(m),
        feasible_wf(m),
    ensures
        feasible_wf(reduce_spec(m)),
    decreases measure(m),
{
    lemma_step_shrinks(m);
    if step(m) != m {
        lemma_filter_sorted(m.feasible, feasible_pred(m));
        lemma_filter_elems(m.feasible, feasible_pred(m));
        let fws = filter_feasible(m);
        assert forall|k: int| 0 <= k < fws.len() implies m.words.contains(#[trigger] fws[k]) by {
            let j0 = choose|j0: int| 0 <= j0 < m.feasible.len() && fws[k] == m.feasible[j0];
            assert(m.words.contains(m.feasible[j0]));
        }
        assert(feasible_from(fws, m.words));
        assert(feasible_sorted(fws));
        assert(step(m).feasible == fws && step(m).words == m.words);
        assert(feasible_wf(step(m)));
        lemma_reduce_keeps_feasible_wf(step(m));
    }
}

// ---------------------------------------------------------------------------
// soundness of propagation: a feasible word is never discarded
// ---------------------------------------------------------------------------
proof fn lemma_count_upto_card(w: Seq<u8>, c: u8, n: int)
    requires
        0 <= n <= w.len(),
    ensures
        Set::new(|j: int| 0 <= j < n && w[j] == c).finite(),
        Set::new(|j: int| 0 <= j < n && w[j] == c).len() == count_upto(w, c, n),
    decreases n,
{
    broadcast use vstd::set::axiom_set_insert_finite, vstd::set::axiom_set_empty_finite,
        vstd::set::axiom_set_insert_len, vstd::set::axiom_set_empty_len;

    let s = Set::new(|j: int| 0 <= j < n && w[j] == c);
    if n == 0 {
        assert(s =~= Set::empty());
    } else {
        lemma_count_upto_card(w, c, n - 1);
        let d = Set::new(|j: int| 0 <= j < n - 1 && w[j] == c);
        if w[n - 1] == c {
            assert(s =~= d.insert(n - 1));
            assert(!d.contains(n - 1));
        } else {
            assert(s =~= d);
        }
    }
}

proof fn lemma_count_slots_card(slots: Seq<Set<u8>>, c: u8, n: int)
    requires
        0 <= n <= slots.len(),
    ensures
        Set::new(|j: int| 0 <= j < n && slots[j].contains(c)).finite(),
        Set::new(|j: int| 0 <= j < n && slots[j].contains(c)).len() == count_slots_with(
            slots,
            c,
            n,
        ),
    decreases n,
{
    broadcast use vstd::set::axiom_set_insert_finite, vstd::set::axiom_set_empty_finite,
        vstd::set::axiom_set_insert_len, vstd::set::axiom_set_empty_len;

    let s = Set::new(|j: int| 0 <= j < n && slots[j].contains(c));
    if n == 0 {
        assert(s =~= Set::empty());
    } else {
        lemma_count_slots_card(slots, c, n - 1);
        let d = Set::new(|j: int| 0 <= j < n - 1 && slots[j].contains(c));
        if slots[n - 1].contains(c) {
            assert(s =~= d.insert(n - 1));
            assert(!d.contains(n - 1));
        } else {
            assert(s =~= d);
        }
    }
}

/// Occurrence forcing is sound: a word that needs the letter at least as
/// often as the minimum keeps fitting every slot.
proof fn lemma_force_letter_keeps(slots: Seq<Set<u8>>, min: int, c: u8, w: Seq<u8>)
    requires
        w.len() == slots.len(),
        forall|j: int| 0 <= j < w.len() ==> slots[j].contains(#[trigger] w[j]),
        count_letter(w, c) >= min,
    ensures
        forall|j: int|
            0 <= j < w.len() ==> force_letter(slots, min, c)[j].contains(#[trigger] w[j]),
{
    let n = w.len() as int;
    if count_slots_with(slots, c, slots.len() as int) <= min {
        let p = Set::new(|j: int| 0 <= j < n && w[j] == c);
        let s = Set::new(|j: int| 0 <= j < n && slots[j].contains(c));
        lemma_count_upto_card(w, c, n);
        lemma_count_slots_card(slots, c, n);
        assert(p.subset_of(s));
        lemma_len_subset(p, s);
        assert(p.len() == s.len());
        lemma_subset_equality(p, s);
        assert forall|j: int| 0 <= j < w.len() implies force_letter(slots, min, c)[j].contains(
            #[trigger] w[j],
        ) by {
            if slots[j].contains(c) {
                assert(s.contains(j));
                assert(p.contains(j));
                assert(w[j] == c);
            }
        }
    }
}

proof fn lemma_force_upto_keeps(slots: Seq<Set<u8>>, counts: Seq<(int, int)>, c: int, w: Seq<u8>)
    requires
        w.len() == slots.len(),
        letters_ok(w),
        forall|j: int| 0 <= j < w.len() ==> slots[j].contains(#[trigger] w[j]),
        forall|x: u8| x < 26 ==> counts[x as int].0 <= count_letter(w, x),
        0 <= c <= 26,
    ensures
        forall|j: int|
            0 <= j < w.len() ==> force_upto(slots, counts, c)[j].contains(#[trigger] w[j]),
    decreases c,
{
    if c > 0 {
        lemma_force_upto_keeps(slots, counts, c - 1, w);
        lemma_force_upto_subset(slots, counts, c - 1);
        let b = (c - 1) as u8;
        lemma_force_letter_keeps(force_upto(slots, counts, c - 1), counts[c - 1].0, b, w);
    }
}

/// One propagation pass never discards a feasible word, and the word stays
/// feasible afterwards.
proof fn lemma_step_keeps_word(m: PuzzleModel, w: Seq<u8>)
    requires
        model_wf(m),
        m.feasible.contains(w),
        feasible_word(m, w),
    ensures
        step(m).feasible.contains(w),
        feasible_word(step(m), w),
{
    let fws = filter_feasible(m);
    let k = choose|k: int| 0 <= k < m.feasible.len() && m.feasible[k] == w;
    m.feasible.lemma_filter_contains(feasible_pred(m), k);
    assert(fws.contains(w));
    let narrowed = Seq::new(m.slots.len(), |i: int| m.slots[i].intersect(mask_at(fws, i)));
    assert forall|i: int| 0 <= i < w.len() implies narrowed[i].contains(#[trigger] w[i]) by {
        let k2 = choose|k2: int| 0 <= k2 < fws.len() && fws[k2] == w;
        assert(fws[k2][i] == w[i]);
        assert(mask_at(fws, i).contains(w[i]));
    }
    lemma_force_upto_keeps(narrowed, m.counts, 26, w);
    lemma_force_upto_subset(narrowed, m.counts, 26);
    assert forall|i: int| 0 <= i < w.len() implies step(m).slots[i].contains(
        #[trigger] w[i],
    ) by {
        assert(step(m).slots[i] == force_upto(narrowed, m.counts, 26)[i]);
        assert(force_upto(narrowed, m.counts, 26)[i].contains(w[i]));
    }
    assert forall|c: u8| c < 26 implies (#[trigger] step(m).counts[c as int]).0 <= count_letter(
        w,
        c,
    ) && count_letter(w, c) <= step(m).counts[c as int].1 by {
        assert(step(m).counts[c as int] == m.counts[c as int]);
    }
    assert(feasible_word(step(m), w));
}

/// Propagation is sound: a word that satisfies all current constraints is
/// still in the feasible cache at the fixed point, and still satisfies the
/// constraints there.
pub proof fn lemma_reduce_keeps_word(m: PuzzleModel, w: Seq<u8>)
    requires
        model_wf(m),
        m.feasible.contains(w),
        feasible_word(m, w),
    ensures
        reduce_spec(m).feasible.contains(w),
        feasible_word(reduce_spec(m), w),
    decreases measure(m),
{
    lemma_step_shrinks(m);
    if step(m) != m {
        lemma_step_keeps_word(m, w);
        lemma_reduce_keeps_word(step(m), w);
    }
}

// ---------------------------------------------------------------------------
// the guess search
// ---------------------------------------------------------------------------
pub open spec fn pow3(n: nat) -> nat
    decreases n,
{
    if n == 0 {
        1
    } else {
        3 * pow3((n - 1) as nat)
    }
}

pub proof fn lemma_pow3_mono(a: nat, b: nat)
    requires
        a <= b,
    ensures
        pow3(a) <= pow3(b),
        pow3(a) >= 1,
    decreases b,
{
    if a == b {
        lemma_pow3_pos(a);
    } else {
        lemma_pow3_mono(a, (b - 1) as nat);
    }
}

pub proof fn lemma_pow3_pos(n: nat)
    ensures
        pow3(n) >= 1,
    decreases n,
{
    if n > 0 {
        lemma_pow3_pos((n - 1) as nat);
    }
}

/// The digits of the pattern enumeration, in the order the search expands
/// them.
pub open spec fn hint_of_digit(d: int) -> Hint {
    if d == 0 {
        Hint::Present
    } else if d == 1 {
        Hint::Absent
    } else {
        Hint::Correct
    }
}

/// The `k`-th synthetic hint pattern of length `len`: `k` written in base 3,
/// the first position carrying the most significant digit.
pub open spec fn pattern_of(k: int, len: nat) -> Seq<Hint> {
    Seq::new(len, |i: int| hint_of_digit((k / pow3((len - 1 - i) as nat) as int) % 3))
}

/// How many words stay feasible after simulating `w` with the pattern `p`.
pub open spec fn remaining_after(m: PuzzleModel, w: Seq<u8>, p: Seq<Hint>) -> nat {
    reduce_spec(guess_apply(m, w, p)).feasible.len()
}

/// The transition of one guess keeps the model well formed.
pub proof fn lemma_guess_apply_wf(m: PuzzleModel, w: Seq<u8>, h: Seq<Hint>)
    requires
        model_wf(m),
        w.len() == m.slots.len(),
        letters_ok(w),
        h.len() == w.len(),
    ensures
        model_wf(guess_apply(m, w, h)),
        guess_apply(m, w, h).feasible == m.feasible,
        guess_apply(m, w, h).words == m.words,
        guess_apply(m, w, h).slots.len() == m.slots.len(),
{
    let ga = guess_apply(m, w, h);
    assert forall|i2: int| 0 <= i2 < ga.slots.len() implies (#[trigger] ga.slots[i2]).finite()
        && ga.slots[i2].subset_of(alpha_set()) by {
        broadcast use vstd::set::axiom_set_insert_finite, vstd::set::axiom_set_empty_finite;

        if h[i2] == Hint::Correct {
            assert(w[i2] < 26);
        } else if h[i2] == Hint::Present {
            assert(ga.slots[i2].subset_of(m.slots[i2]));
            lemma_set_subset_finite(m.slots[i2], ga.slots[i2]);
        } else {
            assert(ga.slots[i2].subset_of(m.slots[i2]));
            lemma_set_subset_finite(m.slots[i2], ga.slots[i2]);
        }
    }
}

/// The running score of a candidate over the first `k` patterns: the worst
/// case, the sum over the possible patterns, and how many patterns were
/// possible. An impossible pattern (nothing would remain) contributes
/// nothing.
pub open spec fn score_upto(m: PuzzleModel, w: Seq<u8>, k: int) -> (nat, nat, nat)
    decreases k,
{
    if k <= 0 {
        (0nat, 0nat, 0nat)
    } else {
        let prev = score_upto(m, w, k - 1);
        let r = remaining_after(m, w, pattern_of(k - 1, m.slots.len() as nat));
        if r == 0 {
            prev
        } else {
            (
                if r > prev.0 {
                    r
                } else {
                    prev.0
                },
                (prev.1 + r) as nat,
                (prev.2 + 1) as nat,
            )
        }
    }
}

/// The full score of a candidate guess over all `3^len` patterns.
pub open spec fn score_of(m: PuzzleModel, w: Seq<u8>) -> (nat, nat, nat) {
    score_upto(m, w, pow3(m.slots.len() as nat) as int)
}

pub proof fn lemma_score_upto_bounds(m: PuzzleModel, w: Seq<u8>, k: int)
    requires
        model_wf(m),
        w.len() == m.slots.len(),
        letters_ok(w),
    ensures
        score_upto(m, w, k).0 <= m.feasible.len(),
        score_upto(m, w, k).1 <= m.feasible.len() * score_upto(m, w, k).2,
        score_upto(m, w, k).2 <= if k >= 0 {
            k
        } else {
            0
        },
        score_upto(m, w, k).0 == 0 <==> score_upto(m, w, k).2 == 0,
    decreases k,
{
    if k > 0 {
        lemma_score_upto_bounds(m, w, k - 1);
        let p = pattern_of(k - 1, m.slots.len() as nat);
        lemma_guess_apply_wf(m, w, p);
        lemma_reduce_spec_props(guess_apply(m, w, p));
        let prev = score_upto(m, w, k - 1);
        let r = remaining_after(m, w, p);
        assert(r <= m.feasible.len());
        if r != 0 {
            assert(prev.1 + r <= m.feasible.len() * prev.2 + m.feasible.len());
            assert(m.feasible.len() * prev.2 + m.feasible.len() == m.feasible.len() * (prev.2
                + 1)) by (nonlinear_arith);
        }
    }
}

pub proof fn lemma_score_upto_worst_mono(m: PuzzleModel, w: Seq<u8>, k1: int, k2: int)
    requires
        k1 <= k2,
    ensures
        score_upto(m, w, k1).0 <= score_upto(m, w, k2).0,
    decreases k2 - k1,
{
    if k1 < k2 {
        lemma_score_upto_worst_mono(m, w, k1, k2 - 1);
    }
}

/// Candidate `a` scores strictly better than `b`: a smaller worst case, or
/// the same worst case and a smaller average case (compared exactly, by
/// cross-multiplication).
pub open spec fn score_lt(a: (nat, nat, nat), b: (nat, nat, nat)) -> bool {
    a.0 < b.0 || (a.0 == b.0 && a.1 * b.2 < b.1 * a.2)
}

pub open spec fn score_eq(a: (nat, nat, nat), b: (nat, nat, nat)) -> bool {
    a.0 == b.0 && a.1 * b.2 == b.1 * a.2
}

/// The best candidate among the first `k` dictionary words, as
/// `(index, score, still-feasible)`: the earliest word under the total order
/// "worst case, then average case, then prefer a feasible word". Words with
/// no possible pattern are skipped.
pub open spec fn best_upto(m: PuzzleModel, k: int) -> Option<(int, (nat, nat, nat), bool)>
    decreases k,
{
    if k <= 0 {
        None
    } else {
        let prev = best_upto(m, k - 1);
        let sc = score_of(m, m.words[k - 1]);
        if sc.2 == 0 {
            prev
        } else {
            match prev {
                None => Some((k - 1, sc, feasible_word(m, m.words[k - 1]))),
                Some(p) => {
                    if score_lt(sc, p.1) || (score_eq(sc, p.1) && feasible_word(m, m.words[k - 1])
                        && !p.2) {
                        Some((k - 1, sc, feasible_word(m, m.words[k - 1])))
                    } else {
                        prev
                    }
                },
            }
        }
    }
}

pub proof fn lemma_best_upto_index(m: PuzzleModel, k: int)
    ensures
        match best_upto(m, k) {
            None => true,
            Some(p) => 0 <= p.0 < k && p.1 == score_of(m, m.words[p.0]) && p.1.2 > 0 && p.2
                == feasible_word(m, m.words[p.0]),
        },
    decreases k,
{
    if k > 0 {
        lemma_best_upto_index(m, k - 1);
    }
}

proof fn lemma_pow3_add(a: nat, b: nat)
    ensures
        pow3(a + b) == pow3(a) * pow3(b),
    decreases a,
{
    if a == 0 {
        assert(pow3(0 + b) == 1 * pow3(b)) by (nonlinear_arith)
            requires
                pow3(0 + b) == pow3(b),
        ;
    } else {
        lemma_pow3_add((a - 1) as nat, b);
        assert(3 * ((pow3((a - 1) as nat)) * pow3(b)) == (3 * pow3((a - 1) as nat)) * pow3(b))
            by (nonlinear_arith);
    }
}

/// The last pattern index, all of whose base-3 digits are 2, spells the
/// all-Correct pattern.
proof fn lemma_pattern_all_correct(len: nat)
    requires
        len >= 1,
    ensures
        pattern_of(pow3(len) as int - 1, len) =~= Seq::new(len, |i: int| Hint::Correct),
{
    assert forall|i: int| 0 <= i < len implies #[trigger] pattern_of(
        pow3(len) as int - 1,
        len,
    )[i] == Hint::Correct by {
        let t = (len - 1 - i) as nat;
        let x = pow3(len) as int - 1;
        lemma_pow3_pos(t);
        lemma_pow3_pos((len - t) as nat);
        lemma_pow3_add(t, (len - t) as nat);
        assert((pow3((len - t) as nat) as int - 1) * (pow3(t) as int) + (pow3(t) as int - 1)
            == pow3(len) as int - 1) by (nonlinear_arith)
            requires
                pow3(len) == pow3(t) * pow3((len - t) as nat),
        ;
        // x divided by 3^t leaves 3^(len-t) - 1
        vstd::arithmetic::div_mod::lemma_fundamental_div_mod_converse(
            x,
            pow3(t) as int,
            pow3((len - t) as nat) as int - 1,
            pow3(t) as int - 1,
        );
        let q = pow3((len - t) as nat) as int - 1;
        // and that quotient is 2 modulo 3
        lemma_pow3_pos((len - t - 1) as nat);
        vstd::arithmetic::div_mod::lemma_fundamental_div_mod_converse(
            q,
            3,
            pow3((len - t - 1) as nat) as int - 1,
            2,
        );
    }
}

proof fn lemma_score_upto_worst_le(m: PuzzleModel, w: Seq<u8>, kk: int, bound: nat)
    requires
        forall|k: int|
            0 <= k < kk ==> remaining_after(
                m,
                w,
                #[trigger] pattern_of(k, m.slots.len() as nat),
            ) <= bound,
    ensures
        score_upto(m, w, kk).0 <= bound,
    decreases kk,
{
    if kk > 0 {
        lemma_score_upto_worst_le(m, w, kk - 1, bound);
    }
}

/// After a reduction that discards nothing, every cached word already
/// satisfied the constraints.
proof fn lemma_reduce_no_loss(m: PuzzleModel)
    requires
        model_wf(m),
        reduce_spec(m).feasible.len() == m.feasible.len(),
    ensures
        forall|j: int|
            0 <= j < m.feasible.len() ==> feasible_word(m, #[trigger] m.feasible[j]),
{
    lemma_step_shrinks(m);
    m.feasible.lemma_filter_len(feasible_pred(m));
    if step(m) == m {
        assert(filter_feasible(m) == m.feasible);
        assert forall|j: int| 0 <= j < m.feasible.len() implies feasible_word(
            m,
            #[trigger] m.feasible[j],
        ) by {
            m.feasible.lemma_filter_pred(feasible_pred(m), j);
        }
    } else {
        lemma_reduce_spec_props(step(m));
        assert(filter_feasible(m).len() == m.feasible.len());
        lemma_filter_len_eq(m.feasible, feasible_pred(m));
        assert forall|j: int| 0 <= j < m.feasible.len() implies feasible_word(
            m,
            #[trigger] m.feasible[j],
        ) by {
            m.feasible.lemma_filter_pred(feasible_pred(m), j);
        }
    }
}

/// Simulating a guess from the feasible pool against any hint pattern
/// always rules out at least one candidate: either the guess itself becomes
/// infeasible, or (under the all-Correct pattern) everything except the
/// guess does.
proof fn lemma_pattern_excludes(m: PuzzleModel, g: Seq<u8>, p: Seq<Hint>)
    requires
        model_wf(m),
        step(m) == m,
        feasible_wf(m),
        m.feasible.contains(g),
        m.feasible.len() >= 2,
        p.len() == m.slots.len(),
    ensures
        remaining_after(m, g, p) < m.feasible.len(),
{
    let fl = m.feasible.len() as int;
    let kg = choose|kg: int| 0 <= kg < fl && m.feasible[kg] == g;
    assert(word_shape(g, m.slots.len() as int));
    let n = g.len() as int;
    let ga = guess_apply(m, g, p);
    lemma_guess_apply_wf(m, g, p);
    lemma_reduce_spec_props(ga);
    let m2 = reduce_spec(ga);
    if m2.feasible.len() == m.feasible.len() {
        // nothing was ruled out: every feasible word satisfies the new
        // constraints, which cannot be
        lemma_reduce_no_loss(ga);
        assert(feasible_word(ga, g));
        if forall|i: int| 0 <= i < n ==> p[i] == Hint::Correct {
            // everything must equal the guess, but the pool holds two
            // distinct words
            let other: int = if kg == 0 {
                1
            } else {
                0
            };
            let w2 = m.feasible[other];
            assert(w2 != g) by {
                if kg < other {
                    crate::words::lemma_lex_lt_irrefl(g, 0);
                } else {
                    crate::words::lemma_lex_lt_irrefl(g, 0);
                }
            }
            assert(feasible_word(ga, w2));
            assert forall|i: int| 0 <= i < n implies w2[i] == g[i] by {
                assert(ga.slots[i] == Set::empty().insert(g[i]));
                assert(ga.slots[i].contains(w2[i]));
            }
            assert(w2 =~= g);
            assert(false);
        } else {
            let i = choose|i: int| 0 <= i < n && p[i] != Hint::Correct;
            let ch = g[i];
            if p[i] == Hint::Present {
                assert(!ga.slots[i].contains(ch));
                assert(false);
            } else {
                if removed_everywhere(g, p, ch) {
                    assert(!ga.slots[i].contains(ch));
                    assert(false);
                } else {
                    // the letter was seen elsewhere, so its maximum drops
                    // below the guess's own occurrence count
                    let cc = hint_kind_count(g, p, ch, Hint::Correct, n) as int;
                    let pc = hint_kind_count(g, p, ch, Hint::Present, n) as int;
                    let ac = hint_kind_count(g, p, ch, Hint::Absent, n) as int;
                    assert(hint_kind_count(g, p, ch, Hint::Absent, i + 1) >= 1);
                    lemma_hint_kind_count_mono(g, p, ch, Hint::Absent, i + 1, n);
                    assert(ac >= 1);
                    lemma_hint_kind_sum(g, p, ch, n);
                    assert(cc + pc + ac == count_upto(g, ch, n));
                    assert(ga.counts[ch as int].1 <= cc + pc);
                    assert(count_letter(g, ch) <= ga.counts[ch as int].1);
                    assert(false);
                }
            }
        }
    }
}

/// A word from the feasible pool always has at least one possible pattern:
/// the all-Correct one keeps the word itself.
proof fn lemma_feasible_has_score(m: PuzzleModel, g: Seq<u8>)
    requires
        model_wf(m),
        step(m) == m,
        m.feasible.contains(g),
    ensures
        score_of(m, g).2 > 0,
{
    let ln = m.slots.len() as nat;
    let n = m.slots.len() as int;
    assert(word_shape(g, n));
    let kc = pow3(ln) as int - 1;
    lemma_pow3_pos(ln);
    lemma_pattern_all_correct(ln);
    let allc = pattern_of(kc, ln);
    assert(allc =~= Seq::new(ln, |i: int| Hint::Correct));
    let ga = guess_apply(m, g, allc);
    lemma_guess_apply_wf(m, g, allc);
    // the word still satisfies every constraint of the simulated state
    let kg = choose|kg: int| 0 <= kg < m.feasible.len() && m.feasible[kg] == g;
    m.feasible.lemma_filter_pred(feasible_pred(m), kg);
    assert(feasible_word(m, g));
    assert(feasible_word(ga, g)) by {
        assert forall|i: int| 0 <= i < n implies ga.slots[i].contains(#[trigger] g[i]) by {
            assert(ga.slots[i] == Set::empty().insert(g[i]));
        }
        assert forall|c: u8| c < 26 implies (#[trigger] ga.counts[c as int]).0 <= count_letter(
            g,
            c,
        ) && count_letter(g, c) <= ga.counts[c as int].1 by {
            lemma_hint_kind_count_none(g, allc, c, Hint::Present, n);
            lemma_hint_kind_count_none(g, allc, c, Hint::Absent, n);
            lemma_hint_kind_sum(g, allc, c, n);
            assert(hint_kind_count(g, allc, c, Hint::Correct, n) == count_letter(g, c));
        }
    }
    lemma_reduce_keeps_word(ga, g);
    assert(reduce_spec(ga).feasible.contains(g));
    assert(remaining_after(m, g, allc) >= 1) by {
        let kk = choose|kk: int|
            0 <= kk < reduce_spec(ga).feasible.len() && reduce_spec(ga).feasible[kk] == g;
    }
    assert(score_of(m, g).2 > 0) by {
        assert(score_upto(m, g, kc + 1).2 >= 1);
        assert(kc + 1 == pow3(ln) as int);
    }
}

/// The winner's worst case never exceeds that of any scored candidate.
proof fn lemma_best_upto_min_worst(m: PuzzleModel, k: int, j: int)
    requires
        0 <= j < k,
        score_of(m, m.words[j]).2 > 0,
    ensures
        best_upto(m, k) is Some,
        best_upto(m, k) matches Some(p) && p.1.0 <= score_of(m, m.words[j]).0,
    decreases k,
{
    if j == k - 1 {
    } else {
        lemma_best_upto_min_worst(m, k - 1, j);
    }
}

/// The first guess always provides information: with more than one
/// candidate left, the recommended guess's worst case is strictly below the
/// size of the candidate pool. (The search's contract ties its result to
/// [`best_guess_spec`], so this speaks of every call of the search on a
/// reduced puzzle.)
pub proof fn lemma_best_guess_informative(m: PuzzleModel)
    requires
        model_wf(m),
        step(m) == m,
        feasible_wf(m),
        m.feasible.len() >= 2,
    ensures
        best_guess_spec(m) matches Ok(t) && t.1 < m.feasible.len(),
{
    let fl = m.feasible.len() as int;
    let n = m.slots.len() as int;
    let ln = m.slots.len() as nat;
    let g = m.feasible[0];
    assert(m.feasible.contains(g));
    assert(word_shape(g, n));
    // the pool being nonempty, no slot is empty
    m.feasible.lemma_filter_pred(feasible_pred(m), 0);
    assert(feasible_word(m, g));
    assert forall|i: int| 0 <= i < n implies #[trigger] m.slots[i] != Set::<u8>::empty() by {
        assert(m.slots[i].contains(g[i]));
    }
    assert(!is_inconsistent(m));
    // two distinct candidates rule out a solved state
    let w2 = m.feasible[1];
    m.feasible.lemma_filter_pred(feasible_pred(m), 1);
    assert(feasible_word(m, w2));
    assert(w2 != g) by {
        crate::words::lemma_lex_lt_irrefl(g, 0);
    }
    assert(!is_solved(m)) by {
        if is_solved(m) {
            assert forall|i: int| 0 <= i < n implies g[i] == w2[i] by {
                let sl = m.slots[i];
                assert(sl.contains(g[i]) && sl.contains(w2[i]) && sl.len() == 1);
                if g[i] != w2[i] {
                    assert(sl.remove(g[i]).len() == sl.len() - 1);
                    sl.remove(g[i]).lemma_len0_is_empty();
                    assert(sl.remove(g[i]).contains(w2[i]));
                }
            }
            assert(g =~= w2);
        }
    }
    // the pool's own first word scores, and every pattern rules something out
    lemma_feasible_has_score(m, g);
    assert forall|k: int| 0 <= k < pow3(ln) implies remaining_after(
        m,
        g,
        #[trigger] pattern_of(k, ln),
    ) <= (fl - 1) as nat by {
        lemma_pattern_excludes(m, g, pattern_of(k, ln));
    }
    lemma_score_upto_worst_le(m, g, pow3(ln) as int, (fl - 1) as nat);
    assert(score_of(m, g).0 <= fl - 1);
    // the winner does at least as well
    let jg = choose|jg: int| 0 <= jg < m.words.len() && m.feasible[0] == m.words[jg];
    assert(m.words.contains(g));
    lemma_best_upto_min_worst(m, m.words.len() as int, jg);
    let p = best_upto(m, m.words.len() as int).unwrap();
    assert(p.1.0 <= score_of(m, m.words[jg]).0);
    assert(score_of(m, m.words[jg]) == score_of(m, g));
}

/// The letters below `c` that a slot admits, in ascending order.
pub open spec fn slot_chars(s: Set<u8>, c: int) -> Seq<char>
    decreases c,
{
    if c <= 0 {
        Seq::empty()
    } else {
        slot_chars(s, c - 1) + if s.contains((c - 1) as u8) {
            seq![crate::words::unnorm_char((c - 1) as u8)]
        } else {
            Seq::empty()
        }
    }
}

/// One rendered line per position below `i`: the position in decimal, a
/// separator, and the letters the slot admits.
pub open spec fn render_slot_lines(m: PuzzleModel, i: int) -> Seq<char>
    decreases i,
{
    if i <= 0 {
        Seq::empty()
    } else {
        render_slot_lines(m, i - 1) + crate::words::dec_spec((i - 1) as nat) + ": "@ + slot_chars(
            m.slots[i - 1],
            26,
        ) + "\n"@
    }
}

/// The rendered occurrence ranges of the letters below `c`.
pub open spec fn render_ranges(m: PuzzleModel, c: int) -> Seq<char>
    decreases c,
{
    if c <= 0 {
        Seq::empty()
    } else {
        render_ranges(m, c - 1) + seq![crate::words::unnorm_char((c - 1) as u8)] + ": "@
            + crate::words::dec_spec(m.counts[c - 1].0 as nat) + "..="@ + crate::words::dec_spec(
            m.counts[c - 1].1 as nat,
        ) + ", "@
    }
}

/// The full rendering: one line per position, then the letter ranges.
pub open spec fn render_spec(m: PuzzleModel) -> Seq<char> {
    render_slot_lines(m, m.slots.len() as int) + "{ "@ + render_ranges(m, 26) + "}\n"@
}

/// Every slot holds exactly one letter: the puzzle is solved.
pub open spec fn is_solved(m: PuzzleModel) -> bool {
    forall|i: int| 0 <= i < m.slots.len() ==> (#[trigger] m.slots[i]).len() == 1
}

/// Some slot admits no letter at all: the puzzle is inconsistent.
pub open spec fn is_inconsistent(m: PuzzleModel) -> bool {
    exists|i: int| 0 <= i < m.slots.len() && #[trigger] m.slots[i] == Set::<u8>::empty()
}

/// The word a solved puzzle spells.
pub open spec fn solved_word(m: PuzzleModel) -> Seq<u8> {
    Seq::new(m.slots.len(), |i: int| m.slots[i].choose())
}

/// What the guess search returns, as a function of the state alone: the word
/// (normalized), the worst case, and the average case as an exact fraction.
pub open spec fn best_guess_spec(m: PuzzleModel) -> Result<(Seq<u8>, nat, nat, nat), SolveErr> {
    if is_inconsistent(m) {
        Err(SolveErr::Inconsistent)
    } else if is_solved(m) {
        Ok((solved_word(m), 0nat, 0nat, 1nat))
    } else {
        match best_upto(m, m.words.len() as int) {
            None => Err(SolveErr::Inconsistent),
            Some(p) => Ok((m.words[p.0], p.1.0, p.1.1, p.1.2)),
        }
    }
}

/// When no word satisfies the constraints any more, propagation drives
/// every slot empty — the observable inconsistency signal — and the guess
/// search reports Inconsistent.
pub proof fn lemma_no_candidates_inconsistent(m: PuzzleModel)
    requires
        model_wf(m),
        filter_feasible(m).len() == 0,
    ensures
        is_inconsistent(reduce_spec(m)),
        best_guess_spec(reduce_spec(m)) == Err::<(Seq<u8>, nat, nat, nat), SolveErr>(
            SolveErr::Inconsistent,
        ),
{
    let r = reduce_spec(m);
    lemma_reduce_spec_props(m);
    lemma_step_shrinks(m);
    if step(m) == m {
        assert(m.feasible == filter_feasible(m));
        lemma_reduce_slots_in_masks(m);
        assert forall|c: u8| !(#[trigger] mask_at(m.feasible, 0).contains(c)) by {}
        assert(mask_at(m.feasible, 0) =~= Set::<u8>::empty());
        assert(r.slots[0] =~= Set::<u8>::empty());
    } else {
        lemma_reduce_slots_in_masks(step(m));
        assert(r == reduce_spec(step(m)));
        assert(step(m).feasible.len() == 0);
        assert forall|c: u8| !(#[trigger] mask_at(step(m).feasible, 0).contains(c)) by {}
        assert(mask_at(step(m).feasible, 0) =~= Set::<u8>::empty());
        assert(r.slots[0] =~= Set::<u8>::empty());
    }
    assert(is_inconsistent(r));
}

proof fn lemma_hint_kind_count_none(w: Seq<u8>, h: Seq<Hint>, c: u8, kind: Hint, n: int)
    requires
        forall|j: int| 0 <= j < n ==> h[j] != kind,
    ensures
        hint_kind_count(w, h, c, kind, n) == 0,
    decreases n,
{
    if n > 0 {
        lemma_hint_kind_count_none(w, h, c, kind, n - 1);
    }
}

/// One witness family for the inconsistency property: a hint that pins every
/// position of a word, followed by a hint that rejects every occurrence of
/// the same word's letters, cannot both be true for any answer. Feeding both
/// drives every slot empty, and the guess search then reports Inconsistent.
/// (By the contract of [`Puzzle::guess`], the two states below are exactly
/// the states after the two calls.)
pub proof fn lemma_contradictory_guesses_inconsistent(m: PuzzleModel, w: Seq<u8>)
    requires
        model_wf(m),
        w.len() == m.slots.len(),
        letters_ok(w),
    ensures
        ({
            let all_c = Seq::new(w.len(), |i: int| Hint::Correct);
            let all_a = Seq::new(w.len(), |i: int| Hint::Absent);
            let m1 = reduce_spec(guess_apply(m, w, all_c));
            let m2 = reduce_spec(guess_apply(m1, w, all_a));
            is_inconsistent(m2) && best_guess_spec(m2) == Err::<(Seq<u8>, nat, nat, nat), SolveErr>(
                SolveErr::Inconsistent,
            )
        }),
{
    let n = w.len() as int;
    let all_c = Seq::new(w.len(), |i: int| Hint::Correct);
    let all_a = Seq::new(w.len(), |i: int| Hint::Absent);
    let ga1 = guess_apply(m, w, all_c);
    lemma_guess_apply_wf(m, w, all_c);
    let m1 = reduce_spec(ga1);
    lemma_reduce_spec_props(ga1);
    assert forall|i: int| 0 <= i < m1.slots.len() implies (#[trigger] m1.slots[i]).subset_of(
        Set::empty().insert(w[i]),
    ) by {
        assert(ga1.slots[i] == Set::empty().insert(w[i]));
        assert(m1.slots[i].subset_of(ga1.slots[i]));
    }
    let ga2 = guess_apply(m1, w, all_a);
    lemma_guess_apply_wf(m1, w, all_a);
    assert forall|i: int| 0 <= i < ga2.slots.len() implies #[trigger] ga2.slots[i] == Set::<
        u8,
    >::empty() by {
        assert(ga2.slots[i] == m1.slots[i].difference(removed_set(w, all_a)));
        assert(removed_everywhere(w, all_a, w[i])) by {
            assert(hint_kind_count(w, all_a, w[i], Hint::Absent, i + 1) >= 1);
            lemma_hint_kind_count_mono(w, all_a, w[i], Hint::Absent, i + 1, n);
            lemma_hint_kind_count_none(w, all_a, w[i], Hint::Correct, n);
            lemma_hint_kind_count_none(w, all_a, w[i], Hint::Present, n);
        }
        assert forall|x: u8| !(#[trigger] ga2.slots[i].contains(x)) by {
            if ga2.slots[i].contains(x) {
                assert(m1.slots[i].contains(x));
                assert(x == w[i]);
                assert(!removed_set(w, all_a).contains(x));
            }
        }
        assert(ga2.slots[i] =~= Set::<u8>::empty());
    }
    let m2 = reduce_spec(ga2);
    lemma_reduce_spec_props(ga2);
    assert(m2.slots[0].subset_of(ga2.slots[0]));
    assert(m2.slots[0] =~= Set::<u8>::empty());
    assert(is_inconsistent(m2));
}

/// The full alphabet: every letter from 0 to 25.
pub open spec fn alpha_set() -> Set<u8> {
    Set::new(|c: u8| c < 26)
}

pub proof fn lemma_alpha_set_finite()
    ensures
        alpha_set().finite(),
{
    crate::bit_set::lemma_all_positions_finite();
    assert(alpha_set().subset_of(crate::bit_set::all_positions()));
    lemma_set_subset_finite(crate::bit_set::all_positions(), alpha_set());
}

/// A fresh puzzle over a dictionary: every word feasible, every slot the full
/// alphabet, every letter allowed 0 to `len` occurrences.
pub open spec fn init_model(words: Seq<Seq<u8>>, len: int) -> PuzzleModel {
    PuzzleModel {
        words,
        feasible: words,
        slots: Seq::new(len as nat, |i: int| alpha_set()),
        counts: Seq::new(26, |c: int| (0int, len)),
    }
}

/// A wordle-like puzzle: the solver state after any number of guesses.
/// It does not store the answer; it narrows the set of words that could
/// still be the answer.
pub struct Puzzle {
    all_words: Vec<Vec<u8>>,
    feasible_words: Vec<Vec<u8>>,
    slots: Vec<BitSet32>,
    letter_counts: Vec<(usize, usize)>,
}

impl View for Puzzle {
    type V = PuzzleModel;

    closed spec fn view(&self) -> PuzzleModel {
        PuzzleModel {
            words: seq_views(self.all_words@),
            feasible: seq_views(self.feasible_words@),
            slots: seq_views(self.slots@),
            counts: Seq::new(
                self.letter_counts@.len(),
                |c: int| (self.letter_counts@[c].0 as int, self.letter_counts@[c].1 as int),
            ),
        }
    }
}

/// The dictionary words are strictly sorted.
pub open spec fn words_sorted(words: Seq<Seq<u8>>) -> bool {
    forall|i: int, j: int| 0 <= i < j < words.len() ==> lex_lt(#[trigger] words[i], #[trigger] words[j])
}

impl Puzzle {
    /// The invariant between public calls: a well-formed model at a fixed
    /// point of propagation, over a sorted dictionary.
    pub open spec fn inv(&self) -> bool {
        &&& model_wf(self@)
        &&& step(self@) == self@
        &&& words_sorted(self@.words)
        &&& feasible_wf(self@)
    }

    /// The number of letters of the puzzle's words.
    pub fn word_len(&self) -> (r: usize)
        ensures
            r as int == self@.slots.len(),
    {
        self.slots.len()
    }

    /// Creates a puzzle over the words of `dictionary`: every word feasible,
    /// every slot the full alphabet, every letter's occurrence range 0 to the
    /// word length; then reduces it to its fixed point.
    pub fn new(dictionary: &Dictionary) -> (r: Puzzle)
        requires
            dictionary.wf(),
        ensures
            r@ == reduce_spec(init_model(dictionary@, dictionary.spec_word_len())),
            r.inv(),
            r@.words == dictionary@,
    {
        let all_words = dictionary.to_words();
        let feasible_words = dictionary.to_words();
        let word_len = dictionary.word_len();

        let mut allowed = BitSet32::new();
        let mut c: u8 = 0;
        while c < 26
            invariant
                c <= 26,
                allowed@ == Set::new(|b: u8| b < c),
            decreases 26 - c,
        {
            allowed.insert(c);
            proof {
                assert(allowed@ =~= Set::new(|b: u8| b < c + 1));
            }
            c = c + 1;
        }
        proof {
            assert(allowed@ =~= alpha_set());
        }

        let slots: Vec<BitSet32> = vec![allowed; word_len];
        let mut letter_counts: Vec<(usize, usize)> = Vec::new();
        let mut ci: usize = 0;
        while ci < 26
            invariant
                ci <= 26,
                letter_counts@.len() == ci,
                forall|j: int| 0 <= j < ci ==> #[trigger] letter_counts@[j] == (0usize, word_len),
            decreases 26 - ci,
        {
            letter_counts.push((0, word_len));
            ci = ci + 1;
        }
        let ghost m0 = init_model(dictionary@, dictionary.spec_word_len());
        let mut res = Puzzle { all_words, feasible_words, slots, letter_counts };
        proof {
            assert forall|i: int| 0 <= i < word_len implies #[trigger] res@.slots[i]
                == alpha_set() by {
                assert(cloned(allowed, res.slots@[i]));
                assert(res.slots@[i] == allowed);
            }
            assert forall|i: int| 0 <= i < 26 implies #[trigger] res@.counts[i] == (
            0int,
            word_len as int,
            ) by {
                assert(res.letter_counts@[i] == (0usize, word_len));
            }
            assert(res@ =~~= m0);
            lemma_alpha_set_finite();
            assert forall|k: int| 0 <= k < m0.feasible.len() implies word_shape(
                #[trigger] m0.feasible[k],
                m0.slots.len() as int,
            ) by {
                assert(dictionary@[k].len() == dictionary.spec_word_len());
                assert(crate::words::letters_ok(dictionary@[k]));
            }
            assert(model_wf(res@));
        }
        res.reduce();
        proof {
            lemma_reduce_spec_props(m0);
            assert(res@.words == m0.words);
            assert(words_sorted(res@.words));
            assert(feasible_sorted(m0.feasible));
            assert forall|k: int| 0 <= k < m0.feasible.len() implies m0.words.contains(
                #[trigger] m0.feasible[k],
            ) by {
                assert(m0.words[k] == m0.feasible[k]);
            }
            assert(feasible_wf(m0));
            lemma_reduce_keeps_feasible_wf(m0);
            assert(res.inv());
        }
        res
    }

    /// Whether the normalized `word` is still feasible: every letter
    /// admitted at its position, every letter's occurrence count within its
    /// range.
    pub fn could_be(&self, word: &Vec<u8>) -> (r: bool)
        requires
            model_wf(self@),
            word@.len() == self@.slots.len(),
            letters_ok(word@),
        ensures
            r == feasible_word(self@, word@),
    {
        let n = word.len();
        let mut i: usize = 0;
        while i < n
            invariant
                i <= n,
                n == word@.len(),
                n == self@.slots.len(),
                n == self.slots@.len(),
                letters_ok(word@),
                forall|j: int| 0 <= j < i ==> self@.slots[j].contains(#[trigger] word@[j]),
            decreases n - i,
        {
            if !self.slots[i].contains(word[i]) {
                return false;
            }
            i = i + 1;
        }
        let mut occ: Vec<usize> = vec![0; 26];
        i = 0;
        while i < n
            invariant
                i <= n,
                n == word@.len(),
                letters_ok(word@),
                occ@.len() == 26,
                forall|c: u8|
                    c < 26 ==> #[trigger] occ@[c as int] == count_upto(word@, c, i as int)
                        && occ@[c as int] <= i,
            decreases n - i,
        {
            let ch = word[i];
            occ[ch as usize] = occ[ch as usize] + 1;
            proof {
                assert forall|c: u8| c < 26 implies #[trigger] count_upto(word@, c, i + 1)
                    == count_upto(word@, c, i as int) + if word@[i as int] == c {
                    1int
                } else {
                    0int
                } by {}
            }
            i = i + 1;
        }
        let mut c: usize = 0;
        while c < 26
            invariant
                c <= 26,
                occ@.len() == 26,
                self.letter_counts@.len() == 26,
                self@.counts.len() == 26,
                model_wf(self@),
                n == word@.len(),
                forall|b: u8| b < 26 ==> #[trigger] occ@[b as int] == count_letter(word@, b),
                forall|b: u8|
                    b < c ==> (#[trigger] self@.counts[b as int]).0 <= count_letter(word@, b)
                        && count_letter(word@, b) <= self@.counts[b as int].1,
            decreases 26 - c,
        {
            let (lo, hi) = self.letter_counts[c];
            if occ[c] < lo || occ[c] > hi {
                proof {
                    let b = c as u8;
                    assert(!(self@.counts[b as int].0 <= count_letter(word@, b) && count_letter(
                        word@,
                        b,
                    ) <= self@.counts[b as int].1));
                }
                return false;
            }
            c = c + 1;
        }
        true
    }

    /// Runs constraint propagation until no slot changes in a full pass:
    /// re-filter the feasible words, intersect each slot with the letters the
    /// remaining words use at that position, and collapse the slots of any
    /// letter whose possible positions are down to its required minimum.
    pub fn reduce(&mut self)
        requires
            model_wf(old(self)@),
        ensures
            final(self)@ == reduce_spec(old(self)@),
            model_wf(final(self)@),
            step(final(self)@) == final(self)@,
    {
        proof {
            lemma_reduce_spec_props(old(self)@);
        }
        loop
            invariant
                model_wf(self@),
                reduce_spec(self@) == reduce_spec(old(self)@),
            decreases measure(self@),
        {
            let ghost pre = self@;
            let mut did = false;

            // re-filter the feasible words under the current constraints
            let mut kept: Vec<Vec<u8>> = Vec::new();
            let mut k: usize = 0;
            while k < self.feasible_words.len()
                invariant
                    k <= self.feasible_words.len(),
                    pre == self@,
                    model_wf(self@),
                    seq_views(kept@) == pre.feasible.take(k as int).filter(feasible_pred(pre)),
                decreases self.feasible_words.len() - k,
            {
                proof {
                    assert(word_shape(self@.feasible[k as int], self@.slots.len() as int));
                    assert(self.feasible_words@[k as int]@ == pre.feasible[k as int]);
                }
                let ghost kept0 = kept@;
                if self.could_be(&self.feasible_words[k]) {
                    let w = clone_word(&self.feasible_words[k]);
                    kept.push(w);
                    proof {
                        assert(seq_views(kept@) =~= seq_views(kept0).push(pre.feasible[k as int]));
                    }
                }
                proof {
                    assert(pre.feasible.take(k + 1) =~= pre.feasible.take(k as int).push(
                        pre.feasible[k as int],
                    ));
                    lemma_filter_push(
                        pre.feasible.take(k as int),
                        feasible_pred(pre),
                        pre.feasible[k as int],
                    );
                }
                k = k + 1;
            }
            proof {
                assert(pre.feasible.take(pre.feasible.len() as int) =~= pre.feasible);
            }
            self.feasible_words = kept;
            let ghost fprime = filter_feasible(pre);
            proof {
                assert(self@.feasible == fprime);
                assert(self@.slots == pre.slots);
                assert(self@.counts =~= pre.counts);
                assert(self@.words == pre.words);
                lemma_filter_elems(pre.feasible, feasible_pred(pre));
                assert forall|j: int| 0 <= j < fprime.len() implies word_shape(
                    #[trigger] fprime[j],
                    pre.slots.len() as int,
                ) by {
                    let j2 = choose|j2: int|
                        0 <= j2 < pre.feasible.len() && fprime[j] == pre.feasible[j2];
                    assert(word_shape(pre.feasible[j2], pre.slots.len() as int));
                }
            }

            // the letters the remaining words use at each position
            let word_len = self.slots.len();
            let mut masks: Vec<BitSet32> = Vec::new();
            let mut i: usize = 0;
            while i < word_len
                invariant
                    i <= word_len,
                    masks@.len() == i,
                    forall|j: int| 0 <= j < i ==> (#[trigger] masks@[j])@ == Set::<u8>::empty(),
                decreases word_len - i,
            {
                masks.push(BitSet32::new());
                i = i + 1;
            }
            proof {
                assert forall|j: int| 0 <= j < word_len implies (#[trigger] masks@[j])@ == mask_at(
                    fprime.take(0),
                    j,
                ) by {
                    assert(mask_at(fprime.take(0), j) =~= Set::<u8>::empty());
                }
            }
            k = 0;
            while k < self.feasible_words.len()
                invariant
                    k <= self.feasible_words.len(),
                    masks@.len() == word_len,
                    self@.feasible == fprime,
                    word_len == self@.slots.len(),
                    forall|j: int|
                        0 <= j < fprime.len() ==> word_shape(
                            #[trigger] fprime[j],
                            word_len as int,
                        ),
                    forall|j: int|
                        0 <= j < word_len ==> (#[trigger] masks@[j])@ == mask_at(
                            fprime.take(k as int),
                            j,
                        ),
                decreases self.feasible_words.len() - k,
            {
                let mut i2: usize = 0;
                proof {
                    assert(self.feasible_words@[k as int]@ == fprime[k as int]);
                    assert(word_shape(fprime[k as int], word_len as int));
                }
                while i2 < word_len
                    invariant
                        i2 <= word_len,
                        0 <= k < fprime.len(),
                        masks@.len() == word_len,
                        self@.feasible == fprime,
                        self.feasible_words@[k as int]@ == fprime[k as int],
                        word_shape(fprime[k as int], word_len as int),
                        forall|j: int|
                            0 <= j < i2 ==> (#[trigger] masks@[j])@ == mask_at(
                                fprime.take(k + 1),
                                j,
                            ),
                        forall|j: int|
                            i2 <= j < word_len ==> (#[trigger] masks@[j])@ == mask_at(
                                fprime.take(k as int),
                                j,
                            ),
                    decreases word_len - i2,
                {
                    let ch = self.feasible_words[k][i2];
                    proof {
                        assert(fprime[k as int][i2 as int] == ch);
                        assert(ch < 26);
                    }
                    let mut mb = masks[i2];
                    mb.insert(ch);
                    masks[i2] = mb;
                    proof {
                        lemma_mask_extend(fprime, k as int, i2 as int);
                    }
                    i2 = i2 + 1;
                }
                k = k + 1;
            }
            proof {
                assert(fprime.take(fprime.len() as int) =~= fprime);
                assert forall|j: int| 0 <= j < word_len implies (#[trigger] masks@[j])@ == mask_at(
                    fprime,
                    j,
                ) by {
                    assert(mask_at(fprime.take(fprime.len() as int), j) == mask_at(fprime, j));
                }
            }

            // intersect every slot with its mask
            let ghost narrowed = Seq::new(
                pre.slots.len(),
                |j: int| pre.slots[j].intersect(mask_at(fprime, j)),
            );
            i = 0;
            while i < word_len
                invariant
                    i <= word_len,
                    masks@.len() == word_len,
                    self.slots@.len() == word_len,
                    word_len == pre.slots.len(),
                    self@.feasible == fprime,
                    self@.words == pre.words,
                    self@.counts =~= pre.counts,
                    forall|j: int|
                        0 <= j < word_len ==> (#[trigger] masks@[j])@ == mask_at(fprime, j),
                    narrowed.len() == pre.slots.len(),
                    forall|j: int|
                        0 <= j < pre.slots.len() ==> #[trigger] narrowed[j]
                            == pre.slots[j].intersect(mask_at(fprime, j)),
                    forall|j: int| 0 <= j < i ==> #[trigger] self@.slots[j] == narrowed[j],
                    forall|j: int| i <= j < word_len ==> #[trigger] self@.slots[j] == pre.slots[j],
                    forall|j: int|
                        0 <= j < word_len ==> (#[trigger] self@.slots[j]).subset_of(pre.slots[j]),
                    did ==> strictly_narrowed(self@.slots, pre.slots),
                    !did ==> forall|j: int| 0 <= j < i ==> #[trigger] self@.slots[j] == pre.slots[j],
                decreases word_len - i,
            {
                let ghost before = self@;
                let ghost did0 = did;
                let prev = self.slots[i];
                let mut s = prev;
                s.intersect_with(&masks[i]);
                self.slots[i] = s;
                proof {
                    assert(prev@ == before.slots[i as int]);
                    assert(prev@ == pre.slots[i as int]);
                    assert(self@.slots[i as int] == s@);
                    assert forall|j: int| 0 <= j < word_len && j != i implies #[trigger] self@
                        .slots[j] == before.slots[j] by {}
                    assert(s@ == prev@.intersect(masks@[i as int]@));
                    assert(masks@[i as int]@ == mask_at(fprime, i as int));
                    assert(narrowed.len() == pre.slots.len());
                    assert((i as int) < pre.slots.len());
                    assert(narrowed[i as int] == pre.slots[i as int].intersect(
                        mask_at(fprime, i as int),
                    ));
                    assert(self@.slots[i as int] == narrowed[i as int]);
                    assert(self@.slots[i as int].subset_of(pre.slots[i as int]));
                    assert(self@.feasible == before.feasible);
                    assert(self@.words == before.words);
                    assert(self@.counts == before.counts);
                }
                if s.0 != prev.0 {
                    did = true;
                    proof {
                        if s@ == prev@ {
                            lemma_set_of_bits_injective(s.0, prev.0);
                        }
                        assert(self@.slots[i as int] != pre.slots[i as int]);
                        assert(strictly_narrowed(self@.slots, pre.slots));
                    }
                }
                proof {
                    if s.0 == prev.0 {
                        assert(self@.slots[i as int] == pre.slots[i as int]);
                    }
                    if did && did0 {
                        let j = choose|j: int|
                            0 <= j < pre.slots.len() && (#[trigger] before.slots[j]).subset_of(
                                pre.slots[j],
                            ) && before.slots[j] != pre.slots[j];
                        assert(j != i);
                        assert(self@.slots[j] == before.slots[j]);
                        assert(strictly_narrowed(self@.slots, pre.slots));
                    }
                }
                i = i + 1;
            }

            // occurrence forcing, letter by letter in ascending order
            let ghost slots_c = self@.slots;
            let ghost did_c = did;
            let mut c: u8 = 0;
            while c < 26
                invariant
                    c <= 26,
                    self.slots@.len() == word_len,
                    word_len == pre.slots.len(),
                    self.letter_counts@.len() == 26,
                    slots_c.len() == word_len,
                    self@.feasible == fprime,
                    self@.words == pre.words,
                    self@.counts =~= pre.counts,
                    self@.slots == force_upto(slots_c, pre.counts, c as int),
                    forall|j: int|
                        0 <= j < word_len ==> (#[trigger] self@.slots[j]).subset_of(pre.slots[j]),
                    did ==> strictly_narrowed(self@.slots, pre.slots),
                    !did ==> self@.slots == slots_c && did_c == false,
                    did_c == false ==> slots_c == pre.slots,
                decreases 26 - c,
            {
                let ghost cur = self@.slots;
                let ghost did_letter = did;
                let min = self.letter_counts[c as usize].0;
                proof {
                    assert(pre.counts[c as int].0 == min as int);
                }
                let mut cnt: usize = 0;
                let mut i3: usize = 0;
                while i3 < word_len
                    invariant
                        i3 <= word_len,
                        cnt <= i3,
                        self.slots@.len() == word_len,
                        cur == self@.slots,
                        cur.len() == word_len,
                        c < 26,
                        cnt == count_slots_with(cur, c, i3 as int),
                    decreases word_len - i3,
                {
                    if self.slots[i3].contains(c) {
                        cnt = cnt + 1;
                    }
                    i3 = i3 + 1;
                }
                if cnt <= min {
                    let mut i4: usize = 0;
                    while i4 < word_len
                        invariant
                            i4 <= word_len,
                            c < 26,
                            self.slots@.len() == word_len,
                            word_len == pre.slots.len(),
                            cur.len() == word_len,
                            self@.feasible == fprime,
                            self@.words == pre.words,
                            self@.counts =~= pre.counts,
                            forall|j: int|
                                0 <= j < i4 ==> #[trigger] self@.slots[j] == (if cur[j].contains(
                                    c,
                                ) {
                                    Set::empty().insert(c)
                                } else {
                                    cur[j]
                                }),
                            forall|j: int|
                                i4 <= j < word_len ==> #[trigger] self@.slots[j] == cur[j],
                            forall|j: int|
                                0 <= j < word_len ==> (#[trigger] cur[j]).subset_of(pre.slots[j]),
                            forall|j: int|
                                0 <= j < word_len ==> (#[trigger] self@.slots[j]).subset_of(
                                    pre.slots[j],
                                ),
                            did ==> strictly_narrowed(self@.slots, pre.slots),
                            !did ==> did_letter == false && forall|j: int|
                                0 <= j < word_len ==> #[trigger] self@.slots[j] == cur[j],
                        decreases word_len - i4,
                    {
                        let ghost before = self@;
                        let ghost did0 = did;
                        if self.slots[i4].contains(c) {
                            let prev = self.slots[i4];
                            let mut s = prev;
                            s.clear();
                            s.insert(c);
                            self.slots[i4] = s;
                            proof {
                                assert(prev@ == before.slots[i4 as int]);
                                assert(prev@ == cur[i4 as int]);
                                assert(self@.slots[i4 as int] == s@);
                                assert forall|j: int|
                                    0 <= j < word_len && j != i4 implies #[trigger] self@.slots[j]
                                    == before.slots[j] by {}
                                assert(s@ =~= Set::empty().insert(c));
                                assert(s@.subset_of(prev@)) by {
                                    assert(prev@.contains(c));
                                }
                                assert(self@.feasible == before.feasible);
                                assert(self@.words == before.words);
                                assert(self@.counts == before.counts);
                            }
                            if s.0 != prev.0 {
                                did = true;
                                proof {
                                    if s@ == prev@ {
                                        lemma_set_of_bits_injective(s.0, prev.0);
                                    }
                                    // once a slot shrinks below its pass-start
                                    // value it stays strictly below it
                                    if prev@ == pre.slots[i4 as int] {
                                        assert(self@.slots[i4 as int] != pre.slots[i4 as int]);
                                    } else {
                                        assert(prev@.subset_of(pre.slots[i4 as int]));
                                        assert(exists|x: u8|
                                            pre.slots[i4 as int].contains(x) && !prev@.contains(
                                                x,
                                            )) by {
                                            if forall|x: u8|
                                                #[trigger] pre.slots[i4 as int].contains(x)
                                                    ==> prev@.contains(x) {
                                                assert(pre.slots[i4 as int] =~= prev@);
                                            }
                                        }
                                        let x = choose|x: u8|
                                            pre.slots[i4 as int].contains(x) && !prev@.contains(x);
                                        assert(x != c) by {
                                            assert(prev@.contains(c));
                                        }
                                        assert(!self@.slots[i4 as int].contains(x));
                                        assert(self@.slots[i4 as int] != pre.slots[i4 as int]);
                                    }
                                    assert(strictly_narrowed(self@.slots, pre.slots));
                                }
                            } else {
                                proof {
                                    assert(self@.slots[i4 as int] == prev@);
                                }
                            }
                        }
                        proof {
                            if did && did0 {
                                let j = choose|j: int|
                                    0 <= j < pre.slots.len() && (
                                    #[trigger] before.slots[j]).subset_of(pre.slots[j])
                                        && before.slots[j] != pre.slots[j];
                                if j == i4 as int && self@.slots[j] != before.slots[j] {
                                    // the slot collapsed to the singleton of a
                                    // letter it already admitted
                                    assert(before.slots[j].contains(c));
                                    assert(self@.slots[j] == Set::empty().insert(c));
                                    assert(exists|x: u8|
                                        pre.slots[j].contains(x) && !before.slots[j].contains(
                                            x,
                                        )) by {
                                        if forall|x: u8|
                                            #[trigger] pre.slots[j].contains(x)
                                                ==> before.slots[j].contains(x) {
                                            assert(pre.slots[j] =~= before.slots[j]);
                                        }
                                    }
                                    let x = choose|x: u8|
                                        pre.slots[j].contains(x) && !before.slots[j].contains(x);
                                    assert(x != c);
                                    assert(!self@.slots[j].contains(x));
                                    assert(self@.slots[j] != pre.slots[j]);
                                } else {
                                    assert(self@.slots[j] == before.slots[j]);
                                }
                                assert(strictly_narrowed(self@.slots, pre.slots));
                            }
                        }
                        i4 = i4 + 1;
                    }
                    proof {
                        assert(count_slots_with(cur, c, word_len as int) <= min as int);
                        assert(self@.slots =~= force_letter(cur, pre.counts[c as int].0, c));
                        assert(force_upto(slots_c, pre.counts, c + 1) == force_letter(
                            force_upto(slots_c, pre.counts, c as int),
                            pre.counts[c as int].0,
                            c,
                        ));
                        assert(self@.slots == force_upto(slots_c, pre.counts, c + 1));
                        if !did {
                            assert(self@.slots =~= cur);
                            assert(self@.slots == slots_c);
                        }
                    }
                } else {
                    proof {
                        assert(count_slots_with(cur, c, word_len as int) > min as int);
                        assert(force_letter(cur, pre.counts[c as int].0, c) == cur);
                        assert(force_upto(slots_c, pre.counts, c + 1) == force_letter(
                            force_upto(slots_c, pre.counts, c as int),
                            pre.counts[c as int].0,
                            c,
                        ));
                        assert(self@.slots == force_upto(slots_c, pre.counts, c + 1));
                    }
                }
                c = c + 1;
            }

            // the pass computed exactly step(pre)
            proof {
                assert(slots_c =~= narrowed);
                assert(self@.slots == force_upto(narrowed, pre.counts, 26)) by {
                    assert(force_upto(slots_c, pre.counts, 26) == force_upto(
                        narrowed,
                        pre.counts,
                        26,
                    ));
                }
                assert(self@ =~~= step(pre));
                lemma_step_shrinks(pre);
            }
            if !did {
                proof {
                    let cur = self@;
                    // at a fixed point: filtering is a no-op
                    assert forall|j: int| 0 <= j < cur.feasible.len() implies feasible_pred(cur)(
                        #[trigger] cur.feasible[j],
                    ) by {
                        pre.feasible.lemma_filter_pred(feasible_pred(pre), j);
                        assert(feasible_word(pre, fprime[j]));
                        assert(cur.slots == pre.slots);
                        assert(feasible_word(cur, fprime[j]));
                    }
                    lemma_filter_all_true(cur.feasible, feasible_pred(cur));
                    assert(filter_feasible(cur) == cur.feasible);
                    // intersecting again is a no-op
                    let narrowed2 = Seq::new(
                        cur.slots.len(),
                        |j: int| cur.slots[j].intersect(mask_at(filter_feasible(cur), j)),
                    );
                    assert forall|j: int| 0 <= j < cur.slots.len() implies narrowed2[j]
                        == cur.slots[j] by {
                        assert(cur.slots[j] == pre.slots[j]);
                        assert(cur.slots[j] == narrowed[j]);
                        assert(narrowed[j] == pre.slots[j].intersect(mask_at(fprime, j)));
                        assert(cur.slots[j].intersect(mask_at(fprime, j)) =~= cur.slots[j]);
                    }
                    assert(narrowed2 =~= cur.slots);
                    // forcing again is a no-op
                    assert(force_upto(cur.slots, cur.counts, 26) == cur.slots) by {
                        assert(cur.slots == slots_c);
                        assert(cur.counts == pre.counts);
                        assert(force_upto(slots_c, pre.counts, 26) == self@.slots);
                    }
                    assert(step(cur) =~~= cur);
                    assert(reduce_spec(cur) == cur);
                    if step(pre) == pre {
                        assert(cur == pre);
                    } else {
                        assert(reduce_spec(pre) == reduce_spec(step(pre)));
                    }
                    assert(reduce_spec(old(self)@) == self@);
                }
                return ;
            }
            proof {
                assert(strictly_narrowed(self@.slots, pre.slots));
                let j = choose|j: int|
                    0 <= j < pre.slots.len() && (#[trigger] self@.slots[j]).subset_of(
                        pre.slots[j],
                    ) && self@.slots[j] != pre.slots[j];
                assert(step(pre).slots[j] != pre.slots[j]);
                assert(step(pre) != pre);
                assert(reduce_spec(pre) == reduce_spec(step(pre)));
                assert(measure(self@) < measure(pre));
            }
        }
    }

    /// Applies one `(word, hint)` pair to the state and reduces: the
    /// transition of [`guess_apply`] followed by propagation.
    pub(crate) fn guess_impl(&mut self, word: &Vec<u8>, response: &[Hint])
        requires
            model_wf(old(self)@),
            word@.len() == old(self)@.slots.len(),
            letters_ok(word@),
            response@.len() == word@.len(),
        ensures
            final(self)@ == reduce_spec(guess_apply(old(self)@, word@, response@)),
            model_wf(final(self)@),
            step(final(self)@) == final(self)@,
    {
        let ghost m0 = self@;
        let ghost ga = guess_apply(m0, word@, response@);
        let n = word.len();
        let mut ccs: Vec<usize> = vec![0; 26];
        let mut pcs: Vec<usize> = vec![0; 26];
        let mut acs: Vec<usize> = vec![0; 26];
        let mut i: usize = 0;
        while i < n
            invariant
                i <= n,
                n == word@.len(),
                n == response@.len(),
                letters_ok(word@),
                ccs@.len() == 26,
                pcs@.len() == 26,
                acs@.len() == 26,
                kind_counts_upto(ccs@, pcs@, acs@, word@, response@, i as int),
            decreases n - i,
        {
            let ghost i0 = i as int;
            let ghost c0 = ccs@;
            let ghost p0 = pcs@;
            let ghost a0 = acs@;
            let ch = word[i];
            proof {
                assert(ccs@[ch as int] == hint_kind_count(word@, response@, ch, Hint::Correct, i0)
                    && pcs@[ch as int] == hint_kind_count(word@, response@, ch, Hint::Present, i0)
                    && acs@[ch as int] == hint_kind_count(word@, response@, ch, Hint::Absent, i0));
                lemma_hint_kind_count_le(word@, response@, ch, Hint::Correct, i0);
                lemma_hint_kind_count_le(word@, response@, ch, Hint::Present, i0);
                lemma_hint_kind_count_le(word@, response@, ch, Hint::Absent, i0);
            }
            match response[i] {
                Hint::Correct => { ccs[ch as usize] = ccs[ch as usize] + 1 },
                Hint::Present => { pcs[ch as usize] = pcs[ch as usize] + 1 },
                Hint::Absent => { acs[ch as usize] = acs[ch as usize] + 1 },
            }
            proof {
                assert forall|c: u8| c < 26 implies #[trigger] ccs@[c as int] == hint_kind_count(
                    word@,
                    response@,
                    c,
                    Hint::Correct,
                    i0 + 1,
                ) && pcs@[c as int] == hint_kind_count(word@, response@, c, Hint::Present, i0 + 1)
                    && acs@[c as int] == hint_kind_count(
                    word@,
                    response@,
                    c,
                    Hint::Absent,
                    i0 + 1,
                ) by {
                    assert(hint_kind_count(word@, response@, c, Hint::Correct, i0 + 1)
                        == hint_kind_count(word@, response@, c, Hint::Correct, i0) + if word@[i0]
                        == c && response@[i0] == Hint::Correct {
                        1int
                    } else {
                        0int
                    });
                    assert(hint_kind_count(word@, response@, c, Hint::Present, i0 + 1)
                        == hint_kind_count(word@, response@, c, Hint::Present, i0) + if word@[i0]
                        == c && response@[i0] == Hint::Present {
                        1int
                    } else {
                        0int
                    });
                    assert(hint_kind_count(word@, response@, c, Hint::Absent, i0 + 1)
                        == hint_kind_count(word@, response@, c, Hint::Absent, i0) + if word@[i0]
                        == c && response@[i0] == Hint::Absent {
                        1int
                    } else {
                        0int
                    });
                    if c != ch {
                        assert(ccs@[c as int] == c0[c as int]);
                        assert(pcs@[c as int] == p0[c as int]);
                        assert(acs@[c as int] == a0[c as int]);
                    }
                }
                assert(kind_counts_upto(ccs@, pcs@, acs@, word@, response@, i0 + 1));
            }
            i = i + 1;
        }

        // tighten the occurrence ranges
        let mut c: usize = 0;
        while c < 26
            invariant
                c <= 26,
                n == word@.len(),
                n == response@.len(),
                letters_ok(word@),
                ccs@.len() == 26,
                pcs@.len() == 26,
                acs@.len() == 26,
                kind_counts_upto(ccs@, pcs@, acs@, word@, response@, n as int),
                self.letter_counts@.len() == 26,
                m0.counts.len() == 26,
                ga.counts.len() == 26,
                ga == guess_apply(m0, word@, response@),
                self@.slots == m0.slots,
                self@.feasible == m0.feasible,
                self@.words == m0.words,
                forall|b: int| 0 <= b < c ==> #[trigger] self@.counts[b] == ga.counts[b],
                forall|b: int| c <= b < 26 ==> #[trigger] self@.counts[b] == m0.counts[b],
            decreases 26 - c,
        {
            let ghost before = self@;
            let cc = ccs[c];
            let pc = pcs[c];
            let ac = acs[c];
            proof {
                let b = c as u8;
                assert(b as int == c as int);
                assert(ccs@[b as int] == hint_kind_count(word@, response@, b, Hint::Correct, n as int)
                    && pcs@[b as int] == hint_kind_count(word@, response@, b, Hint::Present, n as int)
                    && acs@[b as int] == hint_kind_count(word@, response@, b, Hint::Absent, n as int));
                lemma_hint_kind_sum(word@, response@, b, n as int);
                lemma_count_upto_bound(word@, b, n as int);
                assert(cc + pc <= n);
            }
            let s = cc + pc;
            let (mut lo, mut hi) = self.letter_counts[c];
            proof {
                assert(before.counts[c as int] == m0.counts[c as int]);
                assert((lo as int, hi as int) == m0.counts[c as int]);
            }
            if s > 0 && s > lo {
                lo = s;
            }
            if ac > 0 && s < hi {
                hi = s;
            }
            self.letter_counts[c] = (lo, hi);
            proof {
                assert forall|b: int| 0 <= b < 26 && b != c implies #[trigger] self@.counts[b]
                    == before.counts[b] by {}
                assert(self@.counts[c as int] == (lo as int, hi as int));
                let b = c as u8;
                assert((c as int) as u8 == b);
                assert(ga.counts[c as int] == guess_range(
                    m0.counts[c as int],
                    hint_kind_count(word@, response@, b, Hint::Correct, n as int) as int,
                    hint_kind_count(word@, response@, b, Hint::Present, n as int) as int,
                    hint_kind_count(word@, response@, b, Hint::Absent, n as int) as int,
                ));
                assert(ga.counts[c as int] == guess_range(
                    m0.counts[c as int],
                    cc as int,
                    pc as int,
                    ac as int,
                ));
                assert(self@.counts[c as int] == ga.counts[c as int]);
                assert(self@.slots == before.slots);
                assert(self@.feasible == before.feasible);
                assert(self@.words == before.words);
            }
            c = c + 1;
        }

        // per-position slot updates
        i = 0;
        while i < n
            invariant
                i <= n,
                n == word@.len(),
                n == response@.len(),
                n == m0.slots.len(),
                letters_ok(word@),
                self.slots@.len() == n,
                self@.counts == ga.counts,
                self@.feasible == m0.feasible,
                self@.words == m0.words,
                forall|j: int|
                    0 <= j < i ==> #[trigger] self@.slots[j] == slot_after_position(
                        m0,
                        word@,
                        response@,
                        j,
                    ),
                forall|j: int| i <= j < n ==> #[trigger] self@.slots[j] == m0.slots[j],
            decreases n - i,
        {
            let ghost before = self@;
            let ch = word[i];
            match response[i] {
                Hint::Correct => {
                    let mut s2 = self.slots[i];
                    s2.clear();
                    s2.insert(ch);
                    self.slots[i] = s2;
                    proof {
                        assert(self@.slots[i as int] == s2@);
                        assert(s2@ == Set::empty().insert(ch));
                    }
                },
                Hint::Present => {
                    let mut s2 = self.slots[i];
                    s2.remove(ch);
                    self.slots[i] = s2;
                    proof {
                        assert(self@.slots[i as int] == s2@);
                        assert(s2@ == before.slots[i as int].remove(ch));
                        assert(before.slots[i as int] == m0.slots[i as int]);
                    }
                },
                Hint::Absent => {},
            }
            proof {
                assert forall|j: int| 0 <= j < n && j != i implies #[trigger] self@.slots[j]
                    == before.slots[j] by {}
                assert(self@.slots[i as int] == slot_after_position(
                    m0,
                    word@,
                    response@,
                    i as int,
                ));
                assert(self@.counts == before.counts);
                assert(self@.feasible == before.feasible);
                assert(self@.words == before.words);
            }
            i = i + 1;
        }

        // a letter absent everywhere leaves every slot
        c = 0;
        while c < 26
            invariant
                c <= 26,
                n == word@.len(),
                n == response@.len(),
                n == m0.slots.len(),
                letters_ok(word@),
                ccs@.len() == 26,
                pcs@.len() == 26,
                acs@.len() == 26,
                kind_counts_upto(ccs@, pcs@, acs@, word@, response@, n as int),
                self.slots@.len() == n,
                self@.counts == ga.counts,
                self@.feasible == m0.feasible,
                self@.words == m0.words,
                forall|j: int|
                    0 <= j < n ==> #[trigger] self@.slots[j] == slot_after_position(
                        m0,
                        word@,
                        response@,
                        j,
                    ).difference(removed_below(word@, response@, c as u8)),
            decreases 26 - c,
        {
            let ghost rb = removed_below(word@, response@, c as u8);
            let ghost rb1 = removed_below(word@, response@, (c + 1) as u8);
            proof {
                let b = c as u8;
                assert(ccs@[b as int] == hint_kind_count(word@, response@, b, Hint::Correct, n as int)
                    && pcs@[b as int] == hint_kind_count(word@, response@, b, Hint::Present, n as int)
                    && acs@[b as int] == hint_kind_count(word@, response@, b, Hint::Absent, n as int));
            }
            if acs[c] > 0 && ccs[c] == 0 && pcs[c] == 0 {
                proof {
                    assert(removed_everywhere(word@, response@, c as u8));
                    assert(rb1 =~= rb.insert(c as u8));
                }
                let mut i5: usize = 0;
                while i5 < n
                    invariant
                        i5 <= n,
                        c < 26,
                        n == m0.slots.len(),
                        n == word@.len(),
                        n == response@.len(),
                        self.slots@.len() == n,
                        self@.counts == ga.counts,
                        self@.feasible == m0.feasible,
                        self@.words == m0.words,
                        rb == removed_below(word@, response@, c as u8),
                        rb1 == removed_below(word@, response@, (c + 1) as u8),
                        rb1 == rb.insert(c as u8),
                        forall|j: int|
                            0 <= j < i5 ==> #[trigger] self@.slots[j] == slot_after_position(
                                m0,
                                word@,
                                response@,
                                j,
                            ).difference(rb1),
                        forall|j: int|
                            i5 <= j < n ==> #[trigger] self@.slots[j] == slot_after_position(
                                m0,
                                word@,
                                response@,
                                j,
                            ).difference(rb),
                    decreases n - i5,
                {
                    let ghost before = self@;
                    let mut s3 = self.slots[i5];
                    s3.remove(c as u8);
                    self.slots[i5] = s3;
                    proof {
                        assert forall|j: int| 0 <= j < n && j != i5 implies #[trigger] self@
                            .slots[j] == before.slots[j] by {}
                        assert(self@.slots[i5 as int] == before.slots[i5 as int].remove(c as u8));
                        assert(slot_after_position(m0, word@, response@, i5 as int).difference(
                            rb,
                        ).remove(c as u8) =~= slot_after_position(
                            m0,
                            word@,
                            response@,
                            i5 as int,
                        ).difference(rb1));
                    }
                    i5 = i5 + 1;
                }
            } else {
                proof {
                    assert(!removed_everywhere(word@, response@, c as u8));
                    assert(rb1 =~= rb);
                    assert forall|j: int| 0 <= j < n implies #[trigger] self@.slots[j]
                        == slot_after_position(m0, word@, response@, j).difference(rb1) by {
                        assert(self@.slots[j] == slot_after_position(
                            m0,
                            word@,
                            response@,
                            j,
                        ).difference(rb));
                    }
                }
            }
            c = c + 1;
        }

        // the walk computed exactly the transition
        proof {
            let w = word@;
            let h = response@;
            assert(removed_below(w, h, 26) =~= removed_set(w, h)) by {
                assert forall|x: u8| removed_everywhere(w, h, x) implies x < 26 by {
                    if x >= 26 {
                        lemma_hint_kind_count_high(w, h, x, Hint::Absent, n as int);
                    }
                }
            }
            assert forall|j: int| 0 <= j < n implies #[trigger] self@.slots[j] == ga.slots[j] by {
                assert(self@.slots[j] == slot_after_position(m0, w, h, j).difference(
                    removed_set(w, h),
                ));
                if h[j] == Hint::Correct {
                    assert(hint_kind_count(w, h, w[j], Hint::Correct, j + 1) >= 1);
                    lemma_hint_kind_count_mono(w, h, w[j], Hint::Correct, j + 1, n as int);
                    assert(!removed_everywhere(w, h, w[j]));
                    assert(Set::empty().insert(w[j]).difference(removed_set(w, h))
                        =~= Set::empty().insert(w[j]));
                }
            }
            assert(self@ =~~= ga);
            lemma_guess_apply_wf(m0, w, h);
            assert(model_wf(ga));
        }
        self.reduce();
    }

    /// Performs the state reductions for guessing `word` and receiving
    /// `hint` from the game. The word must be lowercase alphabetic and of
    /// the puzzle's length, and the hint must have one entry per letter;
    /// otherwise an error reports the first rule broken and the state stays
    /// unchanged.
    pub fn guess(&mut self, word: &str, hint: &[Hint]) -> (r: Result<(), GuessError>)
        requires
            old(self).inv(),
        ensures
            final(self).inv(),
            ({
                let m0 = old(self)@;
                let mf = final(self)@;
                let len = m0.slots.len() as int;
                match r {
                    Ok(_) => {
                        &&& valid_word(word@, len)
                        &&& hint@.len() == len
                        &&& mf == reduce_spec(guess_apply(m0, norm_word(word@), hint@))
                        &&& forall|i: int|
                            0 <= i < len ==> (#[trigger] mf.slots[i]).subset_of(m0.slots[i])
                        &&& forall|b: int|
                            0 <= b < 26 ==> m0.counts[b].0 <= (#[trigger] mf.counts[b]).0
                                && mf.counts[b].1 <= m0.counts[b].1
                    },
                    Err(GuessError::NotLowerAlpha { word: w }) => !all_lower(word@) && w@ == word@
                        && mf == m0,
                    Err(GuessError::WrongWordLen { word: w, expected_len: e }) => all_lower(word@)
                        && word@.len() != len && w@ == word@ && e == len && mf == m0,
                    Err(GuessError::WrongHintLen { hint: hh, expected_len: e }) => valid_word(
                        word@,
                        len,
                    ) && hint@.len() != len && hh@ == hint@ && e == len && mf == m0,
                }
            }),
    {
        let len = self.slots.len();
        let w = match crate::words::normalize_word(len, word) {
            Err(e) => {
                return Err(GuessError::from(e));
            },
            Ok(v) => v,
        };
        if hint.len() != len {
            let mut hh: Vec<Hint> = Vec::new();
            let mut i: usize = 0;
            while i < hint.len()
                invariant
                    i <= hint@.len(),
                    hh@ =~= hint@.take(i as int),
                decreases hint@.len() - i,
            {
                hh.push(hint[i]);
                proof {
                    assert(hh@ =~= hint@.take(i + 1));
                }
                i = i + 1;
            }
            proof {
                assert(hh@ =~= hint@);
            }
            return Err(GuessError::WrongHintLen { hint: hh, expected_len: len });
        }
        let ghost m0 = self@;
        self.guess_impl(&w, hint);
        proof {
            let ga = guess_apply(m0, norm_word(word@), hint@);
            crate::words::lemma_norm_word_ok(word@);
            // the slots only narrow: after the transition they sit inside the
            // masks of the unchanged feasible words, which sit inside the old
            // slots because the old state was reduced
            lemma_reduce_slots_in_masks(ga);
            assert forall|i: int| 0 <= i < m0.slots.len() implies (
            #[trigger] self@.slots[i]).subset_of(m0.slots[i]) by {
                assert(self@.slots[i].subset_of(mask_at(ga.feasible, i)));
                assert(ga.feasible == m0.feasible);
                assert forall|x: u8| mask_at(m0.feasible, i).contains(x) implies m0.slots[i].contains(
                    x,
                ) by {
                    let k = choose|k: int|
                        0 <= k < m0.feasible.len() && (#[trigger] m0.feasible[k])[i] == x;
                    assert(m0.feasible == filter_feasible(m0));
                    m0.feasible.lemma_filter_pred(feasible_pred(m0), k);
                    assert(feasible_word(m0, m0.feasible[k]));
                }
            }
            // the ranges only tighten
            lemma_reduce_spec_props(ga);
            assert forall|b: int| 0 <= b < 26 implies m0.counts[b].0 <= (
            #[trigger] self@.counts[b]).0 && self@.counts[b].1 <= m0.counts[b].1 by {
                assert(self@.counts[b] == ga.counts[b]);
            }
            assert(self@.words == m0.words);
            // the feasible cache stays sorted and drawn from the dictionary
            lemma_guess_apply_wf(m0, norm_word(word@), hint@);
            assert(feasible_wf(ga));
            lemma_reduce_keeps_feasible_wf(ga);
        }
        Ok(())
    }

    /// The letters still admitted at position `i`.
    pub fn slot(&self, i: usize) -> (r: BitSet32)
        requires
            i < self@.slots.len(),
        ensures
            r@ == self@.slots[i as int],
    {
        self.slots[i]
    }

    /// The inclusive occurrence range of letter `c`.
    pub fn letter_range(&self, c: u8) -> (r: (usize, usize))
        requires
            c < 26,
            model_wf(self@),
        ensures
            (r.0 as int, r.1 as int) == self@.counts[c as int],
    {
        self.letter_counts[c as usize]
    }

    /// How many words are still feasible.
    pub fn feasible_count(&self) -> (r: usize)
        ensures
            r == self@.feasible.len(),
    {
        self.feasible_words.len()
    }

    /// The human-readable rendering of the state: the candidate letters of
    /// every position, then every letter's occurrence range.
    pub fn render(&self) -> (r: String)
        requires
            model_wf(self@),
        ensures
            r@ == render_spec(self@),
    {
        let alphabet = "abcdefghijklmnopqrstuvwxyz";
        proof {
            reveal_strlit("abcdefghijklmnopqrstuvwxyz");
            assert(alphabet.is_ascii());
            assert forall|j: int| 0 <= j < 26 implies alphabet@[j] == crate::words::unnorm_char(
                j as u8,
            ) by {}
        }
        let len = self.slots.len();
        let mut out = String::new();
        let mut i: usize = 0;
        while i < len
            invariant
                i <= len,
                len == self@.slots.len(),
                len == self.slots@.len(),
                model_wf(self@),
                alphabet@.len() == 26,
                alphabet.is_ascii(),
                forall|j: int| 0 <= j < 26 ==> alphabet@[j] == crate::words::unnorm_char(j as u8),
                out@ == render_slot_lines(self@, i as int),
            decreases len - i,
        {
            let ds = crate::words::dec_string(i);
            out.append(ds.as_str());
            out.append(": ");
            let s = self.slots[i];
            proof {
                assert(s@ == self@.slots[i as int]);
            }
            let mut txt = String::new();
            let mut c: u8 = 0;
            while c < 26
                invariant
                    c <= 26,
                    s@ == self@.slots[i as int],
                    alphabet@.len() == 26,
                    alphabet.is_ascii(),
                    forall|j: int|
                        0 <= j < 26 ==> alphabet@[j] == crate::words::unnorm_char(j as u8),
                    txt@ == slot_chars(s@, c as int),
                decreases 26 - c,
            {
                if s.contains(c) {
                    let piece = alphabet.substring_ascii(c as usize, c as usize + 1);
                    txt.append(piece);
                    proof {
                        assert(piece@ =~= seq![crate::words::unnorm_char(c)]);
                    }
                }
                proof {
                    assert(txt@ =~= slot_chars(s@, c + 1));
                }
                c = c + 1;
            }
            out.append(txt.as_str());
            out.append("\n");
            proof {
                reveal_strlit(": ");
                reveal_strlit("\n");
                assert(out@ =~= render_slot_lines(self@, i + 1));
            }
            i = i + 1;
        }
        out.append("{ ");
        let ghost base = out@;
        let mut c: u8 = 0;
        while c < 26
            invariant
                c <= 26,
                model_wf(self@),
                self.letter_counts@.len() == 26,
                alphabet@.len() == 26,
                alphabet.is_ascii(),
                forall|j: int| 0 <= j < 26 ==> alphabet@[j] == crate::words::unnorm_char(j as u8),
                out@ == base.add(render_ranges(self@, c as int)),
            decreases 26 - c,
        {
            let piece = alphabet.substring_ascii(c as usize, c as usize + 1);
            out.append(piece);
            out.append(": ");
            let (lo, hi) = self.letter_counts[c as usize];
            let dlo = crate::words::dec_string(lo);
            out.append(dlo.as_str());
            out.append("..=");
            let dhi = crate::words::dec_string(hi);
            out.append(dhi.as_str());
            out.append(", ");
            proof {
                reveal_strlit(": ");
                reveal_strlit("..=");
                reveal_strlit(", ");
                assert(piece@ =~= seq![crate::words::unnorm_char(c)]);
                assert(self@.counts[c as int] == (lo as int, hi as int));
                assert(out@ =~= base.add(render_ranges(self@, c + 1)));
            }
            c = c + 1;
        }
        out.append("}\n");
        proof {
            reveal_strlit("{ ");
            reveal_strlit("}\n");
            assert(out@ =~= render_spec(self@));
        }
        out
    }

    /// Scores one candidate guess: simulates every synthetic hint pattern,
    /// tracking the worst case and the exact average over the possible
    /// patterns. With a `limit`, the candidate is abandoned as soon as its
    /// running worst case exceeds it: such a candidate can no longer beat
    /// the one that set the limit.
    pub fn evaluate_guess(&self, word: &Vec<u8>, limit: Option<u64>) -> (r: Option<
        (u64, u64, u64),
    >)
        requires
            self.inv(),
            word@.len() == self@.slots.len(),
            letters_ok(word@),
            pow3(self@.slots.len() as nat) * (self@.feasible.len() + 1) <= u64::MAX as nat,
        ensures
            ({
                let sc = score_of(self@, word@);
                match r {
                    Some(t) => t.0 == sc.0 && t.1 == sc.1 && t.2 == sc.2 && sc.2 > 0 && (match limit {
                        Some(l) => sc.0 <= l,
                        None => true,
                    }),
                    None => sc.2 == 0 || (match limit {
                        Some(l) => sc.0 > l,
                        None => false,
                    }),
                }
            }),
    {
        let len = self.slots.len();
        let ghost lnat = self@.slots.len() as nat;
        let ghost fcap = self@.feasible.len() as nat;
        proof {
            lemma_pow3_pos(lnat);
        }
        // the powers of three up to the number of patterns
        let mut powers: Vec<u64> = Vec::new();
        powers.push(1);
        let mut j: usize = 0;
        while j < len
            invariant
                j <= len,
                len == self@.slots.len(),
                lnat == self@.slots.len() as nat,
                pow3(lnat) * (fcap + 1) <= u64::MAX as nat,
                powers@.len() == j + 1,
                forall|t: int| 0 <= t <= j ==> #[trigger] powers@[t] == pow3(t as nat),
            decreases len - j,
        {
            let prev = powers[j];
            proof {
                lemma_pow3_mono((j + 1) as nat, lnat);
                assert(pow3(lnat) <= pow3(lnat) * (fcap + 1)) by (nonlinear_arith)
                    requires
                        fcap >= 0,
                ;
                assert(3 * pow3(j as nat) == pow3((j + 1) as nat));
            }
            powers.push(prev * 3);
            j = j + 1;
        }
        let total = powers[len];
        proof {
            assert(total == pow3(lnat));
        }
        let mut worst: u64 = 0;
        let mut sum: u64 = 0;
        let mut cnt: u64 = 0;
        let mut k: u64 = 0;
        while k < total
            invariant
                self.inv(),
                word@.len() == self@.slots.len(),
                letters_ok(word@),
                len == self@.slots.len(),
                lnat == self@.slots.len() as nat,
                fcap == self@.feasible.len() as nat,
                pow3(lnat) * (fcap + 1) <= u64::MAX as nat,
                powers@.len() == len + 1,
                forall|t: int| 0 <= t <= len ==> #[trigger] powers@[t] == pow3(t as nat),
                total == pow3(lnat),
                k <= total,
                (worst as nat, sum as nat, cnt as nat) == score_upto(self@, word@, k as int),
                match limit {
                    Some(l) => worst <= l,
                    None => true,
                },
            decreases total - k,
        {
            // build the pattern with index k
            let mut pat: Vec<Hint> = Vec::new();
            let mut i: usize = 0;
            while i < len
                invariant
                    i <= len,
                    len == self@.slots.len(),
                    lnat == self@.slots.len() as nat,
                    powers@.len() == len + 1,
                    forall|t: int| 0 <= t <= len ==> #[trigger] powers@[t] == pow3(t as nat),
                    pat@.len() == i,
                    forall|t: int| 0 <= t < i ==> #[trigger] pat@[t] == pattern_of(k as int, lnat)[t],
                decreases len - i,
            {
                let p = powers[len - 1 - i];
                proof {
                    lemma_pow3_pos((len - 1 - i) as nat);
                }
                let d = (k / p) % 3;
                let hnt = if d == 0 {
                    Hint::Present
                } else if d == 1 {
                    Hint::Absent
                } else {
                    Hint::Correct
                };
                pat.push(hnt);
                proof {
                    assert(pattern_of(k as int, lnat)[i as int] == hint_of_digit(
                        ((k as int) / pow3((lnat - 1 - i) as nat) as int) % 3,
                    ));
                    assert(p as int == pow3((lnat - 1 - i) as nat) as int);
                    assert(d as int == ((k as int) / p as int) % 3);
                    assert(hnt == hint_of_digit(d as int));
                }
                i = i + 1;
            }
            proof {
                assert(pat@ =~= pattern_of(k as int, lnat));
            }
            // simulate the guess against this pattern
            let mut cpy = self.clone();
            cpy.guess_impl(word, pat.as_slice());
            let possible = cpy.feasible_words.len();
            let ghost rpat = remaining_after(self@, word@, pattern_of(k as int, lnat));
            proof {
                assert(cpy@ == reduce_spec(guess_apply(self@, word@, pat@)));
                assert(possible as nat == rpat);
                lemma_score_upto_bounds(self@, word@, k as int);
                lemma_score_upto_bounds(self@, word@, k + 1);
                lemma_guess_apply_wf(self@, word@, pat@);
                lemma_reduce_spec_props(guess_apply(self@, word@, pat@));
                assert(rpat <= fcap);
                assert(score_upto(self@, word@, k + 1).2 <= pow3(lnat));
                assert(fcap * score_upto(self@, word@, k + 1).2 <= fcap * pow3(lnat))
                    by (nonlinear_arith)
                    requires
                        score_upto(self@, word@, k + 1).2 <= pow3(lnat) && fcap >= 0,
                ;
                assert(fcap * pow3(lnat) + pow3(lnat) == pow3(lnat) * (fcap + 1))
                    by (nonlinear_arith);
            }
            if possible > 0 {
                let pu = possible as u64;
                if pu > worst {
                    worst = pu;
                }
                sum = sum + pu;
                cnt = cnt + 1;
                match limit {
                    Some(l) => {
                        if worst > l {
                            proof {
                                lemma_score_upto_worst_mono(
                                    self@,
                                    word@,
                                    k + 1,
                                    pow3(lnat) as int,
                                );
                            }
                            return None;
                        }
                    },
                    None => {},
                }
            }
            k = k + 1;
        }
        if cnt == 0 {
            return None;
        }
        Some((worst, sum, cnt))
    }

    /// From all the words of the dictionary, finds the one with the best
    /// worst-case number of possible solutions after using it as a guess;
    /// ties go to the best average case, then to a word that could itself be
    /// the answer, then to the first word in lexicographic order. On an
    /// inconsistent puzzle the result is `Inconsistent`; on a solved puzzle
    /// it is the solution itself, with a worst case of 0.
    ///
    /// The recommendation is a function of the puzzle state alone, so it is
    /// the same for every value of `threads`: the search here is sequential,
    /// and a caller that spreads [`Puzzle::evaluate_guess`] over `threads`
    /// workers must merge with this same order to reproduce it.
    pub fn best_guess(&self, threads: usize) -> (r: Result<BestGuess, SolveErr>)
        requires
            self.inv(),
            pow3(self@.slots.len() as nat) * (self@.feasible.len() + 1) <= u64::MAX as nat,
        ensures
            ({
                let sr = best_guess_spec(self@);
                match r {
                    Ok(bg) => sr matches Ok(t) && bg.word@ == crate::words::unnorm_word(t.0)
                        && bg.worst_case == t.1 && bg.avg_sum == t.2 && bg.avg_count == t.3,
                    Err(e) => sr matches Err(e2) && e == e2,
                }
            }),
    {
        let len = self.slots.len();
        let mut i: usize = 0;
        while i < len
            invariant
                i <= len,
                len == self@.slots.len(),
                self@.slots.len() == self.slots@.len(),
                forall|j: int| 0 <= j < i ==> #[trigger] self@.slots[j] != Set::<u8>::empty(),
            decreases len - i,
        {
            if self.slots[i].is_empty() {
                proof {
                    assert(self.slots@[i as int]@ == self@.slots[i as int]);
                    assert(self@.slots[i as int] == Set::<u8>::empty());
                    assert(is_inconsistent(self@));
                }
                return Err(SolveErr::Inconsistent);
            }
            i = i + 1;
        }
        proof {
            assert(!is_inconsistent(self@));
        }
        let mut solved = true;
        i = 0;
        while i < len
            invariant
                i <= len,
                len == self@.slots.len(),
                self@.slots.len() == self.slots@.len(),
                solved ==> forall|j: int| 0 <= j < i ==> (#[trigger] self@.slots[j]).len() == 1,
                !solved ==> !is_solved(self@),
            decreases len - i,
        {
            let sl = self.slots[i].len();
            proof {
                assert(self.slots@[i as int]@ == self@.slots[i as int]);
            }
            if sl != 1 {
                solved = false;
                proof {
                    assert(self@.slots[i as int].len() != 1);
                    assert(!is_solved(self@));
                }
            }
            i = i + 1;
        }
        if solved {
            proof {
                assert(is_solved(self@));
            }
            let mut wv: Vec<u8> = Vec::new();
            i = 0;
            while i < len
                invariant
                    i <= len,
                    len == self@.slots.len(),
                    self@.slots.len() == self.slots@.len(),
                    model_wf(self@),
                    is_solved(self@),
                    wv@.len() == i,
                    forall|j: int| 0 <= j < i ==> #[trigger] wv@[j] == solved_word(self@)[j],
                    letters_ok(wv@),
                decreases len - i,
            {
                let s = self.slots[i];
                proof {
                    assert(self.slots@[i as int]@ == self@.slots[i as int]);
                    assert(s@ == self@.slots[i as int]);
                    assert(s@.len() == 1);
                    assert(s@ != Set::<u8>::empty()) by {
                        if s@ == Set::<u8>::empty() {
                            assert(Set::<u8>::empty().len() == 0);
                        }
                    }
                }
                let mut it = s.iter();
                let l = match it.next() {
                    Some(x) => x,
                    None => {
                        proof {
                            assert(false);
                        }
                        0
                    },
                };
                proof {
                    // the slot is the singleton of l, so choose() picks l
                    assert(s@.contains(l));
                    let ghost sl = self@.slots[i as int];
                    assert(sl.remove(l).len() == sl.len() - 1);
                    sl.remove(l).lemma_len0_is_empty();
                    assert forall|x: u8| sl.contains(x) implies x == l by {
                        if x != l {
                            assert(sl.remove(l).contains(x));
                        }
                    }
                    assert(sl.contains(sl.choose()));
                    assert(solved_word(self@)[i as int] == l);
                    assert(sl.subset_of(alpha_set()));
                    assert(l < 26);
                }
                wv.push(l);
                i = i + 1;
            }
            proof {
                assert(wv@ =~= solved_word(self@));
            }
            let word = crate::words::letters_to_string(&wv);
            return Ok(BestGuess { word, worst_case: 0, avg_sum: 0, avg_count: 1 });
        }
        proof {
            assert(!is_solved(self@));
        }
        // score every dictionary word, keeping the best so far
        let mut best: Option<(usize, u64, u64, u64, bool)> = None;
        let mut widx: usize = 0;
        while widx < self.all_words.len()
            invariant
                self.inv(),
                pow3(self@.slots.len() as nat) * (self@.feasible.len() + 1) <= u64::MAX as nat,
                widx <= self.all_words@.len(),
                self.all_words@.len() == self@.words.len(),
                match best {
                    None => best_upto(self@, widx as int) is None,
                    Some(b) => b.0 < widx && best_upto(self@, widx as int) == Some(
                        (b.0 as int, (b.1 as nat, b.2 as nat, b.3 as nat), b.4),
                    ),
                },
            decreases self.all_words@.len() - widx,
        {
            let ghost m = self@;
            proof {
                assert(word_shape(m.words[widx as int], m.slots.len() as int));
                assert(self.all_words@[widx as int]@ == m.words[widx as int]);
            }
            let wref = &self.all_words[widx];
            let limit = match best {
                None => None,
                Some(b) => Some(b.1),
            };
            let sc = self.evaluate_guess(wref, limit);
            let ghost scs = score_of(m, m.words[widx as int]);
            match sc {
                None => {
                    proof {
                        // the candidate scored nothing, or cannot beat the
                        // best so far
                        if scs.2 != 0 {
                            match best {
                                None => {
                                    assert(false);
                                },
                                Some(b) => {
                                    assert(scs.0 > b.1 as nat);
                                    assert(!score_lt(scs, (b.1 as nat, b.2 as nat, b.3 as nat)));
                                    assert(!score_eq(scs, (b.1 as nat, b.2 as nat, b.3 as nat)));
                                },
                            }
                        }
                        assert(best_upto(m, widx + 1) == best_upto(m, widx as int));
                    }
                },
                Some(t) => {
                    let fz = self.could_be(wref);
                    let repl = match best {
                        None => true,
                        Some(b) => {
                            if t.0 < b.1 {
                                true
                            } else if t.0 == b.1 {
                                proof {
                                    assert((t.1 as u128) * (b.3 as u128) < u128::MAX as u128
                                        && (b.2 as u128) * (t.2 as u128) < u128::MAX as u128)
                                        by (nonlinear_arith)
                                        requires
                                            t.1 <= u64::MAX && b.3 <= u64::MAX && b.2 <= u64::MAX
                                                && t.2 <= u64::MAX,
                                    ;
                                }
                                let lhs = (t.1 as u128) * (b.3 as u128);
                                let rhs = (b.2 as u128) * (t.2 as u128);
                                if lhs < rhs {
                                    true
                                } else if lhs == rhs && fz && !b.4 {
                                    true
                                } else {
                                    false
                                }
                            } else {
                                false
                            }
                        },
                    };
                    proof {
                        let bsc = match best {
                            None => (0nat, 0nat, 0nat),
                            Some(b) => (b.1 as nat, b.2 as nat, b.3 as nat),
                        };
                        match best {
                            None => {},
                            Some(b) => {
                                assert((t.1 as nat) * (b.3 as nat) == ((t.1 as u128) * (
                                b.3 as u128)) as nat) by (nonlinear_arith)
                                    requires
                                        t.1 <= u64::MAX && b.3 <= u64::MAX,
                                ;
                                assert((b.2 as nat) * (t.2 as nat) == ((b.2 as u128) * (
                                t.2 as u128)) as nat) by (nonlinear_arith)
                                    requires
                                        b.2 <= u64::MAX && t.2 <= u64::MAX,
                                ;
                                assert(repl == (score_lt(scs, bsc) || (score_eq(scs, bsc)
                                    && feasible_word(m, m.words[widx as int]) && !b.4)));
                            },
                        }
                        assert(best_upto(m, widx + 1) == (if repl {
                            Some(
                                (
                                    widx as int,
                                    scs,
                                    feasible_word(m, m.words[widx as int]),
                                ),
                            )
                        } else {
                            best_upto(m, widx as int)
                        }));
                    }
                    if repl {
                        best = Some((widx, t.0, t.1, t.2, fz));
                    }
                },
            }
            widx = widx + 1;
        }
        match best {
            None => {
                proof {
                    assert(best_upto(self@, self@.words.len() as int) is None);
                }
                Err(SolveErr::Inconsistent)
            },
            Some(b) => {
                proof {
                    lemma_best_upto_index(self@, self@.words.len() as int);
                    assert(word_shape(self@.words[b.0 as int], self@.slots.len() as int));
                }
                let wv = crate::words::clone_word(&self.all_words[b.0]);
                let word = crate::words::letters_to_string(&wv);
                Ok(BestGuess { word, worst_case: b.1, avg_sum: b.2, avg_count: b.3 })
            },
        }
    }
}

/// A recommended guess: the word, the worst-case number of candidates that
/// could remain after guessing it, and the average case over the possible
/// hint patterns as the exact fraction `avg_sum / avg_count`.
#[derive(Debug, Clone, PartialEq, Eq)]
pub struct BestGuess {
    pub word: String,
    pub worst_case: u64,
    pub avg_sum: u64,
    pub avg_count: u64,
}

impl Clone for Puzzle {
    /// A deep copy with the same model: the search explores hypothetical
    /// futures on clones without touching the shared state.
    fn clone(&self) -> (r: Self)
        ensures
            r@ == self@,
    {
        let all_words = crate::words::clone_words(&self.all_words);
        let feasible_words = crate::words::clone_words(&self.feasible_words);
        let mut slots: Vec<BitSet32> = Vec::new();
        let mut i: usize = 0;
        while i < self.slots.len()
            invariant
                i <= self.slots@.len(),
                slots@.len() == i,
                forall|j: int| 0 <= j < i ==> #[trigger] slots@[j] == self.slots@[j],
            decreases self.slots@.len() - i,
        {
            slots.push(self.slots[i]);
            i = i + 1;
        }
        let mut letter_counts: Vec<(usize, usize)> = Vec::new();
        i = 0;
        while i < self.letter_counts.len()
            invariant
                i <= self.letter_counts@.len(),
                letter_counts@.len() == i,
                forall|j: int| 0 <= j < i ==> #[trigger] letter_counts@[j] == self.letter_counts@[j],
            decreases self.letter_counts@.len() - i,
        {
            letter_counts.push(self.letter_counts[i]);
            i = i + 1;
        }
        let r = Puzzle { all_words, feasible_words, slots, letter_counts };
        proof {
            assert(seq_views(r.slots@) =~= seq_views(self.slots@));
            assert(r@.counts =~= self@.counts);
            assert(r@ =~~= self@);
        }
        r
    }
}

} // verus!
