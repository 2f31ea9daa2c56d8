use vstd::prelude::*;
use vstd::string::*;
use crate::errors::WordError;

verus! {

/// A normalized letter: `'a'` is 0, `'z'` is 25.
pub open spec fn is_lower_char(c: char) -> bool {
    'a' <= c && c <= 'z'
}

pub open spec fn all_lower(s: Seq<char>) -> bool {
    forall|i: int| 0 <= i < s.len() ==> is_lower_char(#[trigger] s[i])
}

/// A word is valid when it is all lowercase letters and has the expected length.
pub open spec fn valid_word(s: Seq<char>, expected_len: int) -> bool {
    all_lower(s) && s.len() == expected_len
}

pub open spec fn norm_char(c: char) -> u8 {
    (c as u8 - 97) as u8
}

/// The letters of a word, mapped to the integer alphabet 0 to 25.
pub open spec fn norm_word(s: Seq<char>) -> Seq<u8> {
    Seq::new(s.len(), |i: int| norm_char(s[i]))
}

pub open spec fn unnorm_char(b: u8) -> char {
    ((b + 97) as u8) as char
}

/// The letters of a normalized word, mapped back to lowercase characters.
pub open spec fn unnorm_word(w: Seq<u8>) -> Seq<char> {
    Seq::new(w.len(), |i: int| unnorm_char(w[i]))
}

/// A normalized word: every letter is in 0 to 25.
pub open spec fn letters_ok(w: Seq<u8>) -> bool {
    forall|i: int| 0 <= i < w.len() ==> #[trigger] w[i] < 26
}

pub proof fn lemma_norm_word_ok(s: Seq<char>)
    requires
        all_lower(s),
    ensures
        letters_ok(norm_word(s)),
        norm_word(s).len() == s.len(),
        unnorm_word(norm_word(s)) == s,
{
    assert forall|i: int| 0 <= i < s.len() implies #[trigger] norm_word(s)[i] < 26 by {
        assert(is_lower_char(s[i]));
    }
    assert forall|i: int| 0 <= i < s.len() implies #[trigger] unnorm_word(norm_word(s))[i]
        == s[i] by {
        assert(is_lower_char(s[i]));
    }
    assert(unnorm_word(norm_word(s)) =~= s);
}

/// Lexicographic order on character sequences, decided from position `i` on:
/// the sequences agree before `i`.
pub open spec fn str_lt_from(a: Seq<char>, b: Seq<char>, i: int) -> bool
    decreases b.len() - i,
{
    if i >= b.len() {
        false
    } else if i >= a.len() {
        true
    } else if a[i] != b[i] {
        a[i] < b[i]
    } else {
        str_lt_from(a, b, i + 1)
    }
}

/// Strict lexicographic order on character sequences.
pub open spec fn str_lt(a: Seq<char>, b: Seq<char>) -> bool {
    str_lt_from(a, b, 0)
}

/// Lexicographic order on normalized words, decided from position `i` on.
pub open spec fn lex_lt_from(a: Seq<u8>, b: Seq<u8>, i: int) -> bool
    decreases b.len() - i,
{
    if i >= b.len() {
        false
    } else if i >= a.len() {
        true
    } else if a[i] != b[i] {
        a[i] < b[i]
    } else {
        lex_lt_from(a, b, i + 1)
    }
}

/// Strict lexicographic order on normalized words.
pub open spec fn lex_lt(a: Seq<u8>, b: Seq<u8>) -> bool {
    lex_lt_from(a, b, 0)
}

/// When two sequences agree strictly below `i`, their order is decided from `i` on.
pub proof fn lemma_str_lt_from_prefix(a: Seq<char>, b: Seq<char>, i: int)
    requires
        0 <= i,
        forall|j: int| 0 <= j < i ==> a[j] == b[j],
        i <= a.len(),
        i <= b.len(),
    ensures
        str_lt(a, b) == str_lt_from(a, b, i),
    decreases i,
{
    if i > 0 {
        lemma_str_lt_from_step(a, b, 0, i);
    }
}

proof fn lemma_str_lt_from_step(a: Seq<char>, b: Seq<char>, k: int, i: int)
    requires
        0 <= k <= i,
        forall|j: int| 0 <= j < i ==> a[j] == b[j],
        i <= a.len(),
        i <= b.len(),
    ensures
        str_lt_from(a, b, k) == str_lt_from(a, b, i),
    decreases i - k,
{
    if k < i {
        assert(a[k] == b[k]);
        lemma_str_lt_from_step(a, b, k + 1, i);
    }
}

pub proof fn lemma_str_lt_trans(a: Seq<char>, b: Seq<char>, c: Seq<char>)
    requires
        str_lt(a, b),
        str_lt(b, c),
    ensures
        str_lt(a, c),
{
    lemma_str_lt_trans_from(a, b, c, 0);
}

proof fn lemma_str_lt_trans_from(a: Seq<char>, b: Seq<char>, c: Seq<char>, i: int)
    requires
        str_lt_from(a, b, i),
        str_lt_from(b, c, i),
    ensures
        str_lt_from(a, c, i),
    decreases c.len() - i,
{
    if i < c.len() && i < b.len() && i < a.len() {
        if a[i] == b[i] && b[i] == c[i] {
            lemma_str_lt_trans_from(a, b, c, i + 1);
        }
    }
}

pub proof fn lemma_lex_lt_irrefl(a: Seq<u8>, i: int)
    ensures
        !lex_lt_from(a, a, i),
    decreases a.len() - i,
{
    if i < a.len() {
        lemma_lex_lt_irrefl(a, i + 1);
    }
}

/// Normalization keeps the order of valid words.
pub proof fn lemma_norm_keeps_order(a: Seq<char>, b: Seq<char>)
    requires
        all_lower(a),
        all_lower(b),
    ensures
        str_lt(a, b) == lex_lt(norm_word(a), norm_word(b)),
{
    lemma_norm_keeps_order_from(a, b, 0);
}

proof fn lemma_norm_keeps_order_from(a: Seq<char>, b: Seq<char>, i: int)
    requires
        all_lower(a),
        all_lower(b),
        0 <= i,
    ensures
        str_lt_from(a, b, i) == lex_lt_from(norm_word(a), norm_word(b), i),
    decreases b.len() - i,
{
    let na = norm_word(a);
    let nb = norm_word(b);
    if i >= b.len() {
    } else if i >= a.len() {
    } else {
        assert(is_lower_char(a[i]));
        assert(is_lower_char(b[i]));
        if a[i] != b[i] {
            assert(na[i] != nb[i]);
            assert((a[i] < b[i]) == (na[i] < nb[i]));
        } else {
            lemma_norm_keeps_order_from(a, b, i + 1);
        }
    }
}

/// Three-way lexicographic comparison of two strings, by characters.
pub fn str_cmp(a: &str, b: &str) -> (r: i8)
    ensures
        (r == 0) == (a@ == b@),
        (r < 0) == str_lt(a@, b@),
        (r > 0) == str_lt(b@, a@),
{
    let na = a.unicode_len();
    let nb = b.unicode_len();
    let mut i: usize = 0;
    while i < na && i < nb
        invariant
            i <= na,
            i <= nb,
            na == a@.len(),
            nb == b@.len(),
            forall|j: int| 0 <= j < i ==> a@[j] == b@[j],
        decreases na - i,
    {
        let ca = a.get_char(i);
        let cb = b.get_char(i);
        if ca != cb {
            proof {
                lemma_str_lt_from_prefix(a@, b@, i as int);
                lemma_str_lt_from_prefix(b@, a@, i as int);
                assert(a@ != b@);
            }
            return if ca < cb {
                -1
            } else {
                1
            };
        }
        i = i + 1;
    }
    proof {
        lemma_str_lt_from_prefix(a@, b@, i as int);
        lemma_str_lt_from_prefix(b@, a@, i as int);
        if na == nb {
            assert(a@ =~= b@);
        } else {
            assert(a@ != b@);
        }
    }
    if na == nb {
        0
    } else if na < nb {
        -1
    } else {
        1
    }
}

/// Rejects a word that is not all lowercase letters, then one whose length is
/// not `expected_len`; accepts the rest.
pub fn check_word(expected_len: usize, word: &str) -> (r: Result<(), WordError>)
    ensures
        match r {
            Ok(_) => valid_word(word@, expected_len as int),
            Err(WordError::NotLowerAlpha { word: w }) => !all_lower(word@) && w@ == word@,
            Err(WordError::WrongWordLen { word: w, expected_len: e }) => all_lower(word@)
                && word@.len() != expected_len && w@ == word@ && e == expected_len,
        },
{
    let n = word.unicode_len();
    let mut i: usize = 0;
    while i < n
        invariant
            i <= n,
            n == word@.len(),
            forall|j: int| 0 <= j < i ==> is_lower_char(#[trigger] word@[j]),
        decreases n - i,
    {
        let c = word.get_char(i);
        if c < 'a' || c > 'z' {
            return Err(WordError::NotLowerAlpha { word: word.to_owned() });
        }
        i = i + 1;
    }
    if n != expected_len {
        return Err(WordError::WrongWordLen { word: word.to_owned(), expected_len });
    }
    Ok(())
}

/// Validates a word as [`check_word`] does and maps it to the integer alphabet.
pub fn normalize_word(expected_len: usize, word: &str) -> (r: Result<Vec<u8>, WordError>)
    ensures
        match r {
            Ok(v) => valid_word(word@, expected_len as int) && v@ == norm_word(word@),
            Err(WordError::NotLowerAlpha { word: w }) => !all_lower(word@) && w@ == word@,
            Err(WordError::WrongWordLen { word: w, expected_len: e }) => all_lower(word@)
                && word@.len() != expected_len && w@ == word@ && e == expected_len,
        },
{
    match check_word(expected_len, word) {
        Err(e) => Err(e),
        Ok(_) => {
            let mut v: Vec<u8> = Vec::new();
            let mut i: usize = 0;
            while i < expected_len
                invariant
                    i <= expected_len,
                    valid_word(word@, expected_len as int),
                    v@ == norm_word(word@).take(i as int),
                decreases expected_len - i,
            {
                let c = word.get_char(i);
                proof {
                    assert(is_lower_char(word@[i as int]));
                }
                v.push((c as u8) - 97);
                proof {
                    assert(v@ =~= norm_word(word@).take(i + 1));
                }
                i = i + 1;
            }
            proof {
                assert(norm_word(word@).take(expected_len as int) =~= norm_word(word@));
            }
            Ok(v)
        },
    }
}

/// The view of each element of a sequence.
pub open spec fn seq_views<T: View>(s: Seq<T>) -> Seq<T::V> {
    Seq::new(s.len(), |i: int| s[i]@)
}

/// An owned copy of a normalized word.
pub fn clone_word(w: &Vec<u8>) -> (r: Vec<u8>)
    ensures
        r@ == w@,
{
    let mut r: Vec<u8> = Vec::new();
    let mut i: usize = 0;
    while i < w.len()
        invariant
            i <= w.len(),
            r@ =~= w@.take(i as int),
        decreases w.len() - i,
    {
        r.push(w[i]);
        proof {
            assert(r@ =~= w@.take(i + 1));
        }
        i = i + 1;
    }
    proof {
        assert(w@.take(w@.len() as int) =~= w@);
    }
    r
}

/// Whether the view `v` occurs among the first `k` strings of `ws`.
pub open spec fn view_among(ws: Seq<String>, k: int, v: Seq<char>) -> bool {
    exists|j: int| 0 <= j < k && ws[j]@ == v
}

/// All of the first `k` strings of `ws` are valid words of length `word_len`.
pub open spec fn all_words_valid(ws: Seq<String>, word_len: int) -> bool {
    forall|j: int| 0 <= j < ws.len() ==> valid_word((#[trigger] ws[j])@, word_len)
}

/// `v` is the least (in lexicographic order) string of `ws` that is not a
/// valid word of length `word_len`.
pub open spec fn least_invalid(ws: Seq<String>, word_len: int, v: Seq<char>) -> bool {
    &&& view_among(ws, ws.len() as int, v)
    &&& !valid_word(v, word_len)
    &&& forall|j: int|
        0 <= j < ws.len() && !valid_word((#[trigger] ws[j])@, word_len) ==> (v == ws[j]@ || str_lt(
            v,
            ws[j]@,
        ))
}

/// The normalized word `v` stands somewhere in `dws`.
pub open spec fn norm_present(dws: Seq<Seq<u8>>, v: Seq<u8>) -> bool {
    exists|i: int| 0 <= i < dws.len() && dws[i] == v
}

/// The normalized word `v` is the normalization of one of the strings of `ws`.
pub open spec fn comes_from(ws: Seq<String>, v: Seq<u8>) -> bool {
    exists|j: int| 0 <= j < ws.len() && v == norm_word(ws[j]@)
}

/// What a successfully built dictionary holds: exactly the normalizations of
/// the input words, well formed (so deduplicated and sorted).
pub open spec fn dict_from(ws: Seq<String>, word_len: int, d: Dictionary) -> bool {
    &&& all_words_valid(ws, word_len)
    &&& d.wf()
    &&& d.spec_word_len() == word_len
    &&& forall|j: int| 0 <= j < ws.len() ==> norm_present(d@, norm_word((#[trigger] ws[j])@))
    &&& forall|i: int| 0 <= i < d@.len() ==> comes_from(ws, #[trigger] d@[i])
}

/// A dictionary is well formed when every word has the dictionary's length
/// over the integer alphabet, and the words are strictly sorted.
pub open spec fn dict_wf(words: Seq<Seq<u8>>, word_len: int) -> bool {
    &&& word_len >= 1
    &&& forall|i: int|
        0 <= i < words.len() ==> (#[trigger] words[i]).len() == word_len && letters_ok(words[i])
    &&& forall|i: int, j: int|
        0 <= i < j < words.len() ==> lex_lt(#[trigger] words[i], #[trigger] words[j])
}

/// An owned copy of a list of normalized words.
pub fn clone_words(v: &Vec<Vec<u8>>) -> (r: Vec<Vec<u8>>)
    ensures
        seq_views(r@) == seq_views(v@),
{
    let mut r: Vec<Vec<u8>> = Vec::new();
    let mut i: usize = 0;
    while i < v.len()
        invariant
            i <= v.len(),
            r@.len() == i,
            forall|j: int| 0 <= j < i ==> (#[trigger] r@[j])@ == v@[j]@,
        decreases v@.len() - i,
    {
        let w = clone_word(&v[i]);
        r.push(w);
        i = i + 1;
    }
    proof {
        assert(seq_views(r@) =~= seq_views(v@));
    }
    r
}

pub open spec fn digit_char(d: int) -> char {
    ((d + 48) as u8) as char
}

/// The decimal rendering of a number, most significant digit first.
pub open spec fn dec_spec(n: nat) -> Seq<char>
    decreases n,
{
    if n < 10 {
        seq![digit_char(n as int)]
    } else {
        dec_spec(n / 10).push(digit_char((n % 10) as int))
    }
}

/// Renders a number in decimal.
pub fn dec_string(n: usize) -> (r: String)
    ensures
        r@ == dec_spec(n as nat),
{
    let digits = "0123456789";
    proof {
        reveal_strlit("0123456789");
        assert(digits.is_ascii());
        assert forall|d: int| 0 <= d < 10 implies digits@[d] == digit_char(d) by {}
    }
    // the digits of n, least significant first
    let mut stack: Vec<u8> = Vec::new();
    let mut m = n;
    loop
        invariant_except_break
            dec_spec(n as nat) == dec_spec(m as nat).add(
                Seq::new(stack@.len(), |j: int| digit_char(stack@[stack@.len() - 1 - j] as int)),
            ),
        invariant
            digits@.len() == 10,
            digits.is_ascii(),
            forall|d: int| 0 <= d < 10 ==> digits@[d] == digit_char(d),
            forall|j: int| 0 <= j < stack@.len() ==> #[trigger] stack@[j] < 10,
        ensures
            stack@.len() > 0,
            dec_spec(n as nat) == Seq::new(
                stack@.len(),
                |j: int| digit_char(stack@[stack@.len() - 1 - j] as int),
            ),
        decreases m,
    {
        let ghost st0 = stack@;
        let d = (m % 10) as u8;
        let m2 = m / 10;
        stack.push(d);
        proof {
            let rev = Seq::new(
                stack@.len(),
                |j: int| digit_char(stack@[stack@.len() - 1 - j] as int),
            );
            let rev0 = Seq::new(st0.len(), |j: int| digit_char(st0[st0.len() - 1 - j] as int));
            if m < 10 {
                assert(dec_spec(m as nat) == seq![digit_char(m as int)]);
                assert(dec_spec(m as nat).add(rev0) =~= rev);
            } else {
                assert(dec_spec(m as nat) == dec_spec((m as nat) / 10).push(
                    digit_char((m % 10) as int),
                ));
                assert(dec_spec(m as nat).add(rev0) =~= dec_spec(m2 as nat).add(rev));
            }
        }
        m = m2;
        if m == 0 {
            break ;
        }
    }
    let mut out = String::new();
    let mut k: usize = stack.len();
    while k > 0
        invariant
            k <= stack@.len(),
            digits@.len() == 10,
            digits.is_ascii(),
            forall|d: int| 0 <= d < 10 ==> digits@[d] == digit_char(d),
            forall|j: int| 0 <= j < stack@.len() ==> #[trigger] stack@[j] < 10,
            out@ =~= Seq::new(
                (stack@.len() - k) as nat,
                |j: int| digit_char(stack@[stack@.len() - 1 - j] as int),
            ),
        decreases k,
    {
        k = k - 1;
        let d = stack[k];
        let piece = digits.substring_ascii(d as usize, d as usize + 1);
        out.append(piece);
        proof {
            assert(piece@.len() == 1);
            assert(piece@[0] == digit_char(d as int));
            assert(out@ =~= Seq::new(
                (stack@.len() - k) as nat,
                |j: int| digit_char(stack@[stack@.len() - 1 - j] as int),
            ));
        }
    }
    proof {
        assert(out@ =~= dec_spec(n as nat));
    }
    out
}

/// Renders a normalized word as the lowercase string it came from.
pub fn letters_to_string(w: &Vec<u8>) -> (r: String)
    requires
        letters_ok(w@),
    ensures
        r@ == unnorm_word(w@),
{
    let alphabet = "abcdefghijklmnopqrstuvwxyz";
    proof {
        reveal_strlit("abcdefghijklmnopqrstuvwxyz");
        assert(alphabet.is_ascii());
        assert forall|j: int| 0 <= j < 26 implies alphabet@[j] == unnorm_char(j as u8) by {}
    }
    let mut out = String::new();
    let mut i: usize = 0;
    while i < w.len()
        invariant
            i <= w.len(),
            letters_ok(w@),
            alphabet@.len() == 26,
            alphabet.is_ascii(),
            forall|j: int| 0 <= j < 26 ==> alphabet@[j] == unnorm_char(j as u8),
            out@ =~= unnorm_word(w@).take(i as int),
        decreases w@.len() - i,
    {
        let b = w[i];
        let piece = alphabet.substring_ascii(b as usize, b as usize + 1);
        out.append(piece);
        proof {
            assert(piece@.len() == 1);
            assert(piece@[0] == alphabet@[b as int]);
            assert(out@ =~= unnorm_word(w@).take(i + 1));
        }
        i = i + 1;
    }
    proof {
        assert(unnorm_word(w@).take(w@.len() as int) =~= unnorm_word(w@));
    }
    out
}

/// A set of valid, uniform-length words for a puzzle, stored normalized,
/// deduplicated and sorted.
#[derive(Debug, Clone)]
pub struct Dictionary {
    words: Vec<Vec<u8>>,
    word_len: usize,
}

impl View for Dictionary {
    type V = Seq<Seq<u8>>;

    closed spec fn view(&self) -> Seq<Seq<u8>> {
        seq_views(self.words@)
    }
}

impl Dictionary {
    pub closed spec fn spec_word_len(&self) -> int {
        self.word_len as int
    }

    pub open spec fn wf(&self) -> bool {
        dict_wf(self@, self.spec_word_len())
    }

    /// The number of letters in each word of the dictionary.
    pub fn word_len(&self) -> (r: usize)
        ensures
            r as int == self.spec_word_len(),
    {
        self.word_len
    }

    /// The number of words in the dictionary.
    pub fn len(&self) -> (r: usize)
        ensures
            r as int == self@.len(),
    {
        self.words.len()
    }

    /// The words of the dictionary, in their stored order.
    pub fn to_words(&self) -> (r: Vec<Vec<u8>>)
        ensures
            seq_views(r@) == self@,
    {
        let mut r: Vec<Vec<u8>> = Vec::new();
        let mut i: usize = 0;
        while i < self.words.len()
            invariant
                i <= self.words.len(),
                r@.len() == i,
                forall|j: int| 0 <= j < i ==> (#[trigger] r@[j])@ == self.words@[j]@,
            decreases self.words.len() - i,
        {
            let w = clone_word(&self.words[i]);
            r.push(w);
            i = i + 1;
        }
        proof {
            assert(seq_views(r@) =~= self@);
        }
        r
    }

    /// Creates a dictionary from raw words: the words are deduplicated and
    /// sorted, then each is validated (in that order, so the reported invalid
    /// word is the least one) and normalized.
    pub fn with_words(word_len: usize, words: &Vec<String>) -> (r: Result<Dictionary, WordError>)
        requires
            word_len >= 1,
        ensures
            match r {
                Ok(d) => dict_from(words@, word_len as int, d),
                Err(WordError::NotLowerAlpha { word: w }) => !all_lower(w@) && least_invalid(
                    words@,
                    word_len as int,
                    w@,
                ),
                Err(WordError::WrongWordLen { word: w, expected_len: e }) => all_lower(w@)
                    && w@.len() != word_len && e == word_len && least_invalid(
                    words@,
                    word_len as int,
                    w@,
                ),
            },
    {
        let mut sorted: Vec<String> = Vec::new();
        let mut k: usize = 0;
        while k < words.len()
            invariant
                k <= words.len(),
                forall|i: int, j: int|
                    0 <= i < j < sorted@.len() ==> str_lt(
                        (#[trigger] sorted@[i])@,
                        (#[trigger] sorted@[j])@,
                    ),
                forall|j: int| 0 <= j < k ==> view_among(sorted@, sorted@.len() as int, (#[trigger] words@[j])@),
                forall|i: int| 0 <= i < sorted@.len() ==> view_among(words@, k as int, (#[trigger] sorted@[i])@),
            decreases words.len() - k,
        {
            let w = &words[k];
            let mut pos: usize = 0;
            let mut dup = false;
            while pos < sorted.len()
                invariant_except_break
                    !dup,
                invariant
                    pos <= sorted.len(),
                    forall|j: int| 0 <= j < pos ==> str_lt((#[trigger] sorted@[j])@, w@),
                ensures
                    forall|j: int| 0 <= j < pos ==> str_lt((#[trigger] sorted@[j])@, w@),
                    dup ==> pos < sorted@.len() && sorted@[pos as int]@ == w@,
                    !dup ==> pos == sorted@.len() || str_lt(w@, sorted@[pos as int]@),
                decreases sorted.len() - pos,
            {
                let c = str_cmp(sorted[pos].as_str(), w.as_str());
                if c == 0 {
                    dup = true;
                    break ;
                } else if c > 0 {
                    break ;
                } else {
                    pos = pos + 1;
                }
            }
            if dup {
                proof {
                    assert(view_among(sorted@, sorted@.len() as int, words@[k as int]@));
                }
            } else {
                proof {
                    if pos < sorted@.len() {
                        assert(str_lt(w@, sorted@[pos as int]@));
                    }
                }
                let ghost old_sorted = sorted@;
                sorted.insert(pos, w.clone());
                proof {
                    old_sorted.insert_ensures(pos as int, sorted@[pos as int]);
                    assert(sorted@[pos as int]@ == w@);
                    // strict sortedness of the widened sequence
                    assert forall|i: int, j: int| 0 <= i < j < sorted@.len() implies str_lt(
                        (#[trigger] sorted@[i])@,
                        (#[trigger] sorted@[j])@,
                    ) by {
                        let p = pos as int;
                        if i < p && j == p {
                        } else if i == p && j > p {
                            assert(sorted@[j]@ == old_sorted[j - 1]@);
                            if j - 1 == p {
                                assert(str_lt(w@, old_sorted[p]@));
                            } else {
                                assert(str_lt(old_sorted[p]@, old_sorted[j - 1]@));
                                lemma_str_lt_trans(w@, old_sorted[p]@, old_sorted[j - 1]@);
                            }
                        } else if i < p && j > p {
                            assert(sorted@[i]@ == old_sorted[i]@);
                            assert(sorted@[j]@ == old_sorted[j - 1]@);
                        } else if i > p {
                            assert(sorted@[i]@ == old_sorted[i - 1]@);
                            assert(sorted@[j]@ == old_sorted[j - 1]@);
                        }
                    }
                    assert(view_among(sorted@, sorted@.len() as int, words@[k as int]@)) by {
                        assert(sorted@[pos as int]@ == words@[k as int]@);
                    }
                    // previously covered views are still covered
                    assert forall|j: int| 0 <= j < k implies view_among(
                        sorted@,
                        sorted@.len() as int,
                        (#[trigger] words@[j])@,
                    ) by {
                        let i0 = choose|i: int|
                            0 <= i < old_sorted.len() && old_sorted[i]@ == words@[j]@;
                        if i0 < pos as int {
                            assert(sorted@[i0]@ == words@[j]@);
                        } else {
                            assert(sorted@[i0 + 1]@ == words@[j]@);
                        }
                    }
                    // every stored view still comes from the input
                    assert forall|i: int| 0 <= i < sorted@.len() implies view_among(
                        words@,
                        k + 1,
                        (#[trigger] sorted@[i])@,
                    ) by {
                        let p = pos as int;
                        if i < p {
                            assert(sorted@[i]@ == old_sorted[i]@);
                            assert(view_among(words@, k as int, old_sorted[i]@));
                        } else if i == p {
                            assert(sorted@[p]@ == words@[k as int]@);
                        } else {
                            assert(sorted@[i]@ == old_sorted[i - 1]@);
                            assert(view_among(words@, k as int, old_sorted[i - 1]@));
                        }
                    }
                }
            }
            k = k + 1;
        }
        // validate and normalize, in sorted order
        let mut out: Vec<Vec<u8>> = Vec::new();
        let mut i: usize = 0;
        while i < sorted.len()
            invariant
                i <= sorted.len(),
                word_len >= 1,
                out@.len() == i,
                forall|j: int| 0 <= j < i ==> valid_word((#[trigger] sorted@[j])@, word_len as int),
                forall|j: int|
                    0 <= j < i ==> (#[trigger] out@[j])@ == norm_word(sorted@[j]@),
                forall|i0: int, j0: int|
                    0 <= i0 < j0 < sorted@.len() ==> str_lt(
                        (#[trigger] sorted@[i0])@,
                        (#[trigger] sorted@[j0])@,
                    ),
                forall|j: int|
                    0 <= j < words@.len() ==> view_among(
                        sorted@,
                        sorted@.len() as int,
                        (#[trigger] words@[j])@,
                    ),
                forall|i0: int|
                    0 <= i0 < sorted@.len() ==> view_among(
                        words@,
                        words@.len() as int,
                        (#[trigger] sorted@[i0])@,
                    ),
            decreases sorted.len() - i,
        {
            match normalize_word(word_len, sorted[i].as_str()) {
                Err(e) => {
                    proof {
                        let v = sorted@[i as int]@;
                        assert forall|j: int|
                            0 <= j < words@.len() && !valid_word(
                                (#[trigger] words@[j])@,
                                word_len as int,
                            ) implies (v == words@[j]@ || str_lt(v, words@[j]@)) by {
                            assert(view_among(sorted@, sorted@.len() as int, words@[j]@));
                            let jj = choose|jj: int|
                                0 <= jj < sorted@.len() && sorted@[jj]@ == words@[j]@;
                            if jj < i as int {
                                assert(valid_word(sorted@[jj]@, word_len as int));
                            } else if jj > i as int {
                                assert(str_lt(sorted@[i as int]@, sorted@[jj]@));
                            }
                        }
                        assert(view_among(words@, words@.len() as int, v));
                        if !all_words_valid(words@, word_len as int) {
                        }
                    }
                    return Err(e);
                },
                Ok(v) => {
                    out.push(v);
                },
            }
            i = i + 1;
        }
        let d = Dictionary { words: out, word_len };
        proof {
            // every input word is valid
            assert forall|j: int| 0 <= j < words@.len() implies valid_word(
                (#[trigger] words@[j])@,
                word_len as int,
            ) by {
                assert(view_among(sorted@, sorted@.len() as int, words@[j]@));
                let jj = choose|jj: int|
                    0 <= jj < sorted@.len() && sorted@[jj]@ == words@[j]@;
                assert(valid_word(sorted@[jj]@, word_len as int));
            }
            // the stored words are well formed and sorted
            assert forall|i0: int| 0 <= i0 < d@.len() implies (#[trigger] d@[i0]).len() == word_len
                && letters_ok(d@[i0]) by {
                lemma_norm_word_ok(sorted@[i0]@);
                assert(d@[i0] == norm_word(sorted@[i0]@));
            }
            assert forall|i0: int, j0: int| 0 <= i0 < j0 < d@.len() implies lex_lt(
                #[trigger] d@[i0],
                #[trigger] d@[j0],
            ) by {
                assert(d@[i0] == norm_word(sorted@[i0]@));
                assert(d@[j0] == norm_word(sorted@[j0]@));
                assert(str_lt(sorted@[i0]@, sorted@[j0]@));
                lemma_norm_keeps_order(sorted@[i0]@, sorted@[j0]@);
            }
            // coverage in both directions
            assert forall|j: int| 0 <= j < words@.len() implies norm_present(
                d@,
                norm_word((#[trigger] words@[j])@),
            ) by {
                assert(view_among(sorted@, sorted@.len() as int, words@[j]@));
                let jj = choose|jj: int|
                    0 <= jj < sorted@.len() && sorted@[jj]@ == words@[j]@;
                assert(d@[jj] == norm_word(words@[j]@));
            }
            assert forall|i0: int| 0 <= i0 < d@.len() implies comes_from(
                words@,
                #[trigger] d@[i0],
            ) by {
                assert(view_among(words@, words@.len() as int, sorted@[i0]@));
                let j = choose|j: int| 0 <= j < words@.len() && words@[j]@ == sorted@[i0]@;
                assert(d@[i0] == norm_word(words@[j]@));
            }
            assert(all_words_valid(words@, word_len as int));
            assert(d.wf());
            assert(d.spec_word_len() == word_len);
            assert(dict_from(words@, word_len as int, d));
        }
        Ok(d)
    }
}

} // verus!
