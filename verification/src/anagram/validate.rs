use crate::anagram::search::{
    find_shortest_path_bewteen_words, is_run, BidirectionalSearch, SearchState,
};
use crate::anagram::tree::MismatchPolicy;
use crate::anagram::theory::{
    is_anagram, lemma_anagram_occurrences, occurrences, swap_step, two_swaps_apart,
};
use crate::anagram::path::{is_swap_path, words_of};
use crate::text::{chars_of, lowercase, lowercase_of, string_of};
use vstd::prelude::*;

verus! {

/// Why two words are no anagrams of one another.
#[derive(Debug, PartialEq, Eq)]
pub enum AnagramError {
    /// The words differ in length.
    LengthMismatch,
    /// `symbol` occurs `first` times in the first word and `second` times in the second.
    CountMismatch { symbol: char, first: usize, second: usize },
    /// `symbol` occurs in the first word and not in the second.
    MissingInSecond { symbol: char },
}

/// The first word's first position whose symbol the two words hold unequally often, if any.
pub open spec fn first_unbalanced(a: Seq<char>, b: Seq<char>, k: int) -> bool {
    &&& 0 <= k < a.len()
    &&& occurrences(a, a[k]) != occurrences(b, a[k])
    &&& forall|e: int| 0 <= e < k ==> occurrences(a, a[e]) == occurrences(b, a[e])
}

/// `why` is the reason for which `a` and `b` are refused: unequal length, or else the first
/// symbol of `a` that the two words hold unequally often, with its two counts.
pub open spec fn explains(why: AnagramError, a: Seq<char>, b: Seq<char>) -> bool {
    match why {
        AnagramError::LengthMismatch => a.len() != b.len(),
        AnagramError::CountMismatch { symbol, first, second } => {
            &&& a.len() == b.len()
            &&& exists|k: int| first_unbalanced(a, b, k) && symbol == a[k]
            &&& first == occurrences(a, symbol)
            &&& second == occurrences(b, symbol)
            &&& second > 0
        },
        AnagramError::MissingInSecond { symbol } => {
            &&& a.len() == b.len()
            &&& exists|k: int| first_unbalanced(a, b, k) && symbol == a[k]
            &&& occurrences(b, symbol) == 0
        },
    }
}

/// The predicate that holds of every character but the space.
pub open spec fn not_space() -> spec_fn(char) -> bool {
    |c: char| c != ' '
}

/// `text` without its spaces.
pub fn remove_spaces(text: &str) -> (out: String)
    ensures
        out@ == text@.filter(not_space()),
{
    let chars = chars_of(text);
    let mut kept: Vec<char> = Vec::new();
    let mut k: usize = 0;
    proof {
        reveal(Seq::filter);
    }
    while k < chars.len()
        invariant
            k <= chars.len(),
            kept@ == chars@.take(k as int).filter(not_space()),
        decreases chars.len() - k,
    {
        proof {
            reveal(Seq::filter);
            let next = chars@.take(k as int + 1);
            assert(next.drop_last() =~= chars@.take(k as int));
            assert(next.last() == chars@[k as int]);
        }
        if chars[k] != ' ' {
            kept.push(chars[k]);
        }
        k += 1;
    }
    assert(chars@.take(chars.len() as int) =~= chars@);
    string_of(&kept)
}

/// Brings a word into the form in which words are compared: lower case, without spaces.
pub fn normalize_word(word: &str) -> (out: String)
    ensures
        out@ == lowercase_of(word@).filter(not_space()),
{
    let lowered = lowercase(word);
    remove_spaces(lowered.as_str())
}

/// Counts how often `symbol` occurs among `chars`.
pub fn count_symbol(chars: &Vec<char>, symbol: char) -> (count: usize)
    ensures
        count == occurrences(chars@, symbol),
{
    let mut count: usize = 0;
    let mut k: usize = 0;
    while k < chars.len()
        invariant
            k <= chars.len(),
            count <= k,
            count == occurrences(chars@.take(k as int), symbol),
        decreases chars.len() - k,
    {
        proof {
            let next = chars@.take(k as int + 1);
            assert(next.drop_last() =~= chars@.take(k as int));
            assert(next.last() == chars@[k as int]);
        }
        if chars[k] == symbol {
            count += 1;
        }
        k += 1;
    }
    assert(chars@.take(chars.len() as int) =~= chars@);
    count
}

/// If every symbol of `a` occurs in `b` as often as in `a`, and the words are equally long,
/// then `b` holds no other symbol.
proof fn lemma_balanced_is_anagram(a: Seq<char>, b: Seq<char>)
    requires
        a.len() == b.len(),
        forall|e: int| 0 <= e < a.len() ==> occurrences(a, a[e]) == occurrences(b, a[e]),
    ensures
        is_anagram(a, b),
{
    broadcast use vstd::seq_lib::group_to_multiset_ensures;

    let ma = a.to_multiset();
    let mb = b.to_multiset();
    assert forall|c: char| ma.count(c) <= mb.count(c) by {
        crate::anagram::theory::lemma_occurrences_is_count(a, c);
        crate::anagram::theory::lemma_occurrences_is_count(b, c);
        if ma.count(c) > 0 {
            assert(a.contains(c));
            let e = choose|e: int| 0 <= e < a.len() && a[e] == c;
            assert(occurrences(a, a[e]) == occurrences(b, a[e]));
        }
    }
    assert(ma.subset_of(mb));
    let rest = mb.sub(ma);
    assert(mb =~= ma.add(rest));
    assert(rest.len() == 0);
    vstd::multiset::lemma_multiset_empty_len(rest);
    assert(rest =~= vstd::multiset::Multiset::empty());
    assert(ma =~= mb);
}

/// Decides whether two words are anagrams of one another, and says why not if they are not.
///
/// Words of unequal length are refused first.  Otherwise the symbols of the first word are
/// gone through in order, and the first one that the second word holds more or less often
/// is reported.
pub fn check_anagram(word_a: &str, word_b: &str) -> (result: Result<(), AnagramError>)
    ensures
        result is Ok <==> is_anagram(word_a@, word_b@),
        result matches Err(why) ==> explains(why, word_a@, word_b@),
{
    let a = chars_of(word_a);
    let b = chars_of(word_b);
    if a.len() != b.len() {
        return Err(AnagramError::LengthMismatch);
    }
    let mut k: usize = 0;
    while k < a.len()
        invariant
            k <= a.len(),
            a@ == word_a@,
            b@ == word_b@,
            a@.len() == b@.len(),
            forall|e: int| 0 <= e < k ==> occurrences(a@, a@[e]) == occurrences(b@, a@[e]),
        decreases a.len() - k,
    {
        let symbol = a[k];
        let first = count_symbol(&a, symbol);
        let second = count_symbol(&b, symbol);
        if first != second {
            proof {
                assert(first_unbalanced(word_a@, word_b@, k as int));
                if is_anagram(word_a@, word_b@) {
                    lemma_anagram_occurrences(word_a@, word_b@, symbol);
                }
            }
            if second == 0 {
                return Err(AnagramError::MissingInSecond { symbol });
            }
            return Err(AnagramError::CountMismatch { symbol, first, second });
        }
        k += 1;
    }
    proof {
        lemma_balanced_is_anagram(word_a@, word_b@);
    }
    Ok(())
}

/// Checks that the two words are anagrams of one another and, if they are, finds a chain of
/// swaps that turns the first into the second.
pub fn find_path_between_anagrams(word_a: &str, word_b: &str) -> (result: Result<
    Vec<String>,
    AnagramError,
>)
    ensures
        result is Ok <==> is_anagram(word_a@, word_b@),
        result matches Ok(path) ==> is_swap_path(words_of(path@), word_a@, word_b@) && (word_a@
            == word_b@ ==> path@.len() == 1) && (swap_step(word_a@, word_b@) ==> path@.len() == 2)
            && (two_swaps_apart(word_a@, word_b@) ==> path@.len() == 3) && words_of(
            path@,
        ).no_duplicates(),
        result matches Ok(path) ==> exists|run: Seq<BidirectionalSearch>, end: SearchState|
            #[trigger] is_run(run, word_a@, word_b@, MismatchPolicy::FullScan, end) && words_of(
                path@,
            ) == run[run.len() - 1].path_through(end->Met_0@),
        result matches Ok(path) ==> forall|other: Seq<Seq<char>>|
            other.len() <= 3 && #[trigger] is_swap_path(other, word_a@, word_b@) ==> path@.len()
                <= other.len(),
        result matches Err(why) ==> explains(why, word_a@, word_b@),
{
    match check_anagram(word_a, word_b) {
        Ok(_) => Ok(find_shortest_path_bewteen_words(word_a, word_b)),
        Err(why) => Err(why),
    }
}

} // verus!
