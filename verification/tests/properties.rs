use wordle_solver::get_hint;
use wordle_solver::Dictionary;
use wordle_solver::GuessError;
use wordle_solver::Hint;
use wordle_solver::Puzzle;
use wordle_solver::SolveErr;
use wordle_solver::WordError;

fn strings(words: &[&str]) -> Vec<String> {
    words.iter().map(|w| w.to_string()).collect()
}

fn dict(word_len: usize, words: &[&str]) -> Dictionary {
    Dictionary::with_words(word_len, &strings(words)).unwrap()
}

/// Everything observable about a puzzle's state.
fn snapshot(p: &Puzzle) -> (Vec<u32>, Vec<(usize, usize)>, usize) {
    let slots: Vec<u32> = (0..p.word_len()).map(|i| p.slot(i).0).collect();
    let ranges: Vec<(usize, usize)> = (0..26).map(|c| p.letter_range(c)).collect();
    (slots, ranges, p.feasible_count())
}

// the count of Present and Correct markings for a letter never exceeds the
// letter's occurrences in the answer
#[test]
fn hint_letter_budget_example() {
    // "hello" has two l's: of the five guessed l's at most two are marked
    let h = get_hint("lllll", "hello").unwrap();
    let non_absent = h.iter().filter(|&&x| x != Hint::Absent).count();
    assert_eq!(non_absent, 2);
    assert_eq!(h, vec![Hint::Absent, Hint::Absent, Hint::Correct, Hint::Correct, Hint::Absent]);
}

#[test]
fn hint_rejects_bad_words() {
    assert_eq!(
        get_hint("ab!", "abc").unwrap_err(),
        WordError::NotLowerAlpha { word: "ab!".to_string() }
    );
    // the answer is validated first
    assert_eq!(
        get_hint("abc", "aB").unwrap_err(),
        WordError::NotLowerAlpha { word: "aB".to_string() }
    );
    assert_eq!(
        get_hint("ab", "abc").unwrap_err(),
        WordError::WrongWordLen { word: "ab".to_string(), expected_len: 3 }
    );
}

#[test]
fn dictionary_rejects_least_invalid_word() {
    // validation happens after sorting and deduplication, so the reported
    // word is the least invalid one, not the first given
    let e = Dictionary::with_words(3, &strings(&["zzz", "ok", "abc", "a!"])).unwrap_err();
    assert_eq!(e, WordError::NotLowerAlpha { word: "a!".to_string() });
    let e = Dictionary::with_words(3, &strings(&["zzz", "ok", "abc"])).unwrap_err();
    assert_eq!(e, WordError::WrongWordLen { word: "ok".to_string(), expected_len: 3 });
}

#[test]
fn guess_rejects_bad_input() {
    let d = dict(3, &["abc", "bcd"]);
    let mut p = Puzzle::new(&d);
    assert_eq!(
        p.guess("a!c", &[Hint::Absent; 3]).unwrap_err(),
        GuessError::NotLowerAlpha { word: "a!c".to_string() }
    );
    assert_eq!(
        p.guess("ab", &[Hint::Absent; 2]).unwrap_err(),
        GuessError::WrongWordLen { word: "ab".to_string(), expected_len: 3 }
    );
    assert_eq!(
        p.guess("abc", &[Hint::Absent; 2]).unwrap_err(),
        GuessError::WrongHintLen { hint: vec![Hint::Absent; 2], expected_len: 3 }
    );
    // a rejected guess leaves the state unchanged
    let before = snapshot(&p);
    let _ = p.guess("ab", &[Hint::Absent; 2]);
    assert_eq!(before, snapshot(&p));
}

// reducing twice gives the same state as reducing once
#[test]
fn reduce_is_idempotent() {
    let d = dict(5, &["hello", "pogos", "holop", "pogas", "hollp"]);
    let mut p = Puzzle::new(&d);
    let once = snapshot(&p);
    p.reduce();
    assert_eq!(once, snapshot(&p));

    p.guess("hello", &get_hint("hello", "pogos").unwrap()).unwrap();
    let after_guess = snapshot(&p);
    p.reduce();
    assert_eq!(after_guess, snapshot(&p));
}

// a guess only narrows: every slot shrinks, every range tightens
#[test]
fn guess_is_monotone() {
    let d = dict(5, &["hello", "pogos", "holop", "pogas", "hollp"]);
    let mut p = Puzzle::new(&d);
    let (slots0, ranges0, _) = snapshot(&p);
    p.guess("pogas", &get_hint("pogas", "hello").unwrap()).unwrap();
    let (slots1, ranges1, _) = snapshot(&p);
    for i in 0..slots0.len() {
        // the new slot is a subset of the old one
        assert_eq!(slots1[i] & slots0[i], slots1[i]);
    }
    for c in 0..26 {
        assert!(ranges0[c].0 <= ranges1[c].0);
        assert!(ranges1[c].1 <= ranges0[c].1);
    }
}

// on a solved puzzle the search returns the solution with worst case 0
// and average case 0, without error
#[test]
fn solved_puzzle_returns_singleton() {
    let d = dict(3, &["abc"]);
    let p = Puzzle::new(&d);
    let bg = p.best_guess(1).unwrap();
    assert_eq!(bg.word, "abc");
    assert_eq!(bg.worst_case, 0);
    assert_eq!(bg.avg_sum, 0);
    assert_eq!(bg.avg_count, 1);
}

// two hints that cannot both be true drive a slot empty, and the search
// then reports Inconsistent
#[test]
fn contradictory_guesses_turn_inconsistent() {
    let d = dict(3, &["abc", "bcd", "cde"]);
    let mut p = Puzzle::new(&d);
    p.guess("abc", &[Hint::Correct; 3]).unwrap();
    p.guess("abc", &[Hint::Absent; 3]).unwrap();
    let empty = (0..p.word_len()).any(|i| p.slot(i).is_empty());
    assert!(empty);
    assert_eq!(p.best_guess(1).unwrap_err(), SolveErr::Inconsistent);
}

// the recommendation does not depend on the thread count
#[test]
fn best_guess_is_deterministic() {
    let d = dict(5, &["hello", "pogos", "holop", "pogas", "hollp", "oogaa"]);
    let p = Puzzle::new(&d);
    let a = p.best_guess(1).unwrap();
    let b = p.best_guess(4).unwrap();
    let c = p.best_guess(16).unwrap();
    assert_eq!((a.word.clone(), a.worst_case, a.avg_sum, a.avg_count),
               (b.word.clone(), b.worst_case, b.avg_sum, b.avg_count));
    assert_eq!((a.word, a.worst_case, a.avg_sum, a.avg_count),
               (c.word, c.worst_case, c.avg_sum, c.avg_count));
}

// with more than one candidate, the first guess always gives some
// information: its worst case is below the full pool size
#[test]
fn first_guess_is_informative() {
    let d = dict(5, &["hello", "pogos", "holop", "pogas", "hollp", "oogaa", "pooas"]);
    let p = Puzzle::new(&d);
    let pool = p.feasible_count();
    assert!(pool > 1);
    let bg = p.best_guess(1).unwrap();
    assert!((bg.worst_case as usize) < pool);
}

// an exact hand-computed search: with words "ab" and "cd" every guess keeps
// exactly one candidate in its two possible hint patterns
#[test]
fn two_word_search_exact() {
    let d = dict(2, &["ab", "cd"]);
    let p = Puzzle::new(&d);
    let bg = p.best_guess(1).unwrap();
    assert_eq!(bg.word, "ab");
    assert_eq!(bg.worst_case, 1);
    assert_eq!(bg.avg_sum, 2);
    assert_eq!(bg.avg_count, 2);
}

// the dictionary sorts and deduplicates its words
#[test]
fn dictionary_sorts_and_dedupes() {
    let d = dict(3, &["cab", "abc", "cab", "bca", "abc"]);
    let p = Puzzle::new(&d);
    assert_eq!(p.feasible_count(), 3);
}

// the rendering lists each position's candidate letters and every letter's
// occurrence range
#[test]
fn render_shows_slots_and_ranges() {
    let d = dict(2, &["ab", "cd"]);
    let p = Puzzle::new(&d);
    let expected = "0: ac\n1: bd\n{ a: 0..=2, b: 0..=2, c: 0..=2, d: 0..=2, e: 0..=2, \
        f: 0..=2, g: 0..=2, h: 0..=2, i: 0..=2, j: 0..=2, k: 0..=2, l: 0..=2, m: 0..=2, \
        n: 0..=2, o: 0..=2, p: 0..=2, q: 0..=2, r: 0..=2, s: 0..=2, t: 0..=2, u: 0..=2, \
        v: 0..=2, w: 0..=2, x: 0..=2, y: 0..=2, z: 0..=2, }\n";
    assert_eq!(p.render(), expected);
}

// a game played to the end: repeatedly guess the recommendation until the
// puzzle is solved
#[test]
fn solve_to_completion() {
    let answer = "holop";
    let d = dict(5, &["hello", "pogos", "holop", "pogas", "hollp", "oogaa"]);
    let mut p = Puzzle::new(&d);
    let mut guesses = 0;
    loop {
        let bg = p.best_guess(1).unwrap();
        guesses += 1;
        assert!(guesses <= 6);
        if bg.word == answer {
            break;
        }
        let h = get_hint(&bg.word, answer).unwrap();
        p.guess(&bg.word, &h).unwrap();
    }
}
