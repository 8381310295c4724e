use vstd::prelude::*;

verus! {

/// ASCII lowercase of one character: `A`..`Z` become `a`..`z`, all else is kept.
pub open spec fn ascii_lower_char(c: char) -> char {
    if 'A' <= c && c <= 'Z' {
        ((c as u32) + 32) as char
    } else {
        c
    }
}

/// ASCII lowercase of a string, as `str::to_ascii_lowercase` gives it.
pub open spec fn ascii_lowercase(s: Seq<char>) -> Seq<char> {
    Seq::new(s.len(), |i: int| ascii_lower_char(s[i]))
}

/// Whether the ASCII lowercase of `s` is `target`.
pub fn lowercase_equals(s: &str, target: &str) -> (eq: bool)
    ensures
        eq == (ascii_lowercase(s@) == target@),
{
    let n = s.unicode_len();
    if n != target.unicode_len() {
        proof {
            assert(ascii_lowercase(s@).len() != target@.len());
        }
        return false;
    }
    let mut i: usize = 0;
    while i < n
        invariant
            n == s@.len(),
            n == target@.len(),
            i <= n,
            forall|j: int| 0 <= j < i ==> ascii_lower_char(s@[j]) == #[trigger] target@[j],
        decreases n - i,
    {
        let c = s.get_char(i);
        let t = target.get_char(i);
        let lowered = if 'A' <= c && c <= 'Z' {
            (c as u32) + 32 == (t as u32)
        } else {
            c == t
        };
        if !lowered {
            proof {
                assert(ascii_lowercase(s@)[i as int] != target@[i as int]);
            }
            return false;
        }
        i = i + 1;
    }
    proof {
        assert(ascii_lowercase(s@) =~= target@);
    }
    true
}

/// Whether the two strings hold the same characters.
pub fn same_text(s: &str, target: &str) -> (eq: bool)
    ensures
        eq == (s@ == target@),
{
    let n = s.unicode_len();
    if n != target.unicode_len() {
        return false;
    }
    let mut i: usize = 0;
    while i < n
        invariant
            n == s@.len(),
            n == target@.len(),
            i <= n,
            forall|j: int| 0 <= j < i ==> s@[j] == #[trigger] target@[j],
        decreases n - i,
    {
        if s.get_char(i) != target.get_char(i) {
            return false;
        }
        i = i + 1;
    }
    proof {
        assert(s@ =~= target@);
    }
    true
}


/// The uppercase counterpart of a lowercase ASCII letter.
pub open spec fn ascii_upper_of(c: char) -> char {
    ((c as u32) - 32) as char
}

/// `word` is made of lowercase ASCII letters only.
pub open spec fn is_lowercase_word(word: Seq<char>) -> bool {
    forall|i: int| 0 <= i < word.len() ==> 'a' <= #[trigger] word[i] && word[i] <= 'z'
}

/// `s` spells `word` with each letter in either case.
pub open spec fn spells_ignoring_case(s: Seq<char>, word: Seq<char>) -> bool {
    &&& s.len() == word.len()
    &&& forall|i: int| 0 <= i < s.len() ==> #[trigger] s[i] == word[i] || s[i] == ascii_upper_of(word[i])
}

/// ASCII lowercase keeps the length, turns each uppercase letter into the lowercase letter
/// whose uppercase it is, and keeps every other character.
pub proof fn lemma_ascii_lowercase_letters(s: Seq<char>)
    ensures
        ascii_lowercase(s).len() == s.len(),
        forall|i: int|
            0 <= i < s.len() && 'A' <= s[i] && s[i] <= 'Z' ==> 'a' <= #[trigger] ascii_lowercase(s)[i]
                && ascii_lowercase(s)[i] <= 'z' && ascii_upper_of(ascii_lowercase(s)[i]) == s[i],
        forall|i: int|
            0 <= i < s.len() && !('A' <= s[i] && s[i] <= 'Z') ==> #[trigger] ascii_lowercase(s)[i] == s[i],
{
}

/// Lowercasing twice is lowercasing once.
pub proof fn lemma_ascii_lowercase_idempotent(s: Seq<char>)
    ensures
        ascii_lowercase(ascii_lowercase(s)) == ascii_lowercase(s),
{
    assert(ascii_lowercase(ascii_lowercase(s)) =~= ascii_lowercase(s));
}

/// Any spelling of a lowercase word, in any mix of cases, lowercases to the word.
pub proof fn lemma_lowercase_of_spelling(s: Seq<char>, word: Seq<char>)
    requires
        is_lowercase_word(word),
        spells_ignoring_case(s, word),
    ensures
        ascii_lowercase(s) == word,
{
    assert forall|i: int| 0 <= i < s.len() implies #[trigger] ascii_lowercase(s)[i] == word[i] by {
        assert('a' <= word[i] && word[i] <= 'z');
    }
    assert(ascii_lowercase(s) =~= word);
}

/// For a lowercase word, `s` lowercases to the word exactly when `s` spells the word with
/// each letter in either case.
pub proof fn lemma_lowercase_is_spelling(s: Seq<char>, word: Seq<char>)
    requires
        is_lowercase_word(word),
    ensures
        (ascii_lowercase(s) == word) == spells_ignoring_case(s, word),
{
    if spells_ignoring_case(s, word) {
        lemma_lowercase_of_spelling(s, word);
    }
    if ascii_lowercase(s) == word {
        lemma_ascii_lowercase_letters(s);
        assert forall|i: int| 0 <= i < s.len() implies #[trigger] s[i] == word[i] || s[i] == ascii_upper_of(
            word[i],
        ) by {
            assert(ascii_lowercase(s)[i] == word[i]);
        }
    }
}

} // verus!
