use crate::text::{chars_of, string_of};
use vstd::prelude::*;

verus! {

/// The word `s` with the symbols at positions `i` and `j` exchanged.
pub open spec fn swapped(s: Seq<char>, i: int, j: int) -> Seq<char> {
    s.update(i, s[j]).update(j, s[i])
}

/// The predicate on positions that holds where `s` and `r` carry different symbols.
pub open spec fn differs_at(s: Seq<char>, r: Seq<char>) -> spec_fn(usize) -> bool {
    |k: usize| s[k as int] != r[k as int]
}

/// The positions `0, 1, .., n - 1` in increasing order.
pub open spec fn all_positions(n: nat) -> Seq<usize> {
    Seq::new(n, |k: int| k as usize)
}

/// The positions at which `s` differs from the reference word `r`, in increasing order.
pub open spec fn mismatches(s: Seq<char>, r: Seq<char>) -> Seq<usize> {
    all_positions(s.len()).filter(differs_at(s, r))
}

/// Exchanges the symbols at two positions of a word.
pub fn new_string_from_swap(word: &str, idx1: usize, idx2: usize) -> (out: String)
    requires
        idx1 <= idx2 < word@.len(),
    ensures
        out@ == swapped(word@, idx1 as int, idx2 as int),
{
    let mut chars = chars_of(word);
    let first = chars[idx1];
    let second = chars[idx2];
    chars.set(idx1, second);
    chars.set(idx2, first);
    string_of(&chars)
}

/// Keeps, in their order, the candidate positions at which the two words differ.
fn keep_differing(source: &Vec<char>, destination: &Vec<char>, candidates: &Vec<usize>) -> (out: Vec<
    usize,
>)
    requires
        source@.len() == destination@.len(),
        forall|k: int| 0 <= k < candidates@.len() ==> candidates@[k] < source@.len(),
    ensures
        out@ == candidates@.filter(differs_at(source@, destination@)),
{
    let mut out: Vec<usize> = Vec::new();
    let mut k: usize = 0;
    proof {
        reveal(Seq::filter);
    }
    while k < candidates.len()
        invariant
            k <= candidates.len(),
            source@.len() == destination@.len(),
            forall|k: int| 0 <= k < candidates@.len() ==> candidates@[k] < source@.len(),
            out@ == candidates@.take(k as int).filter(differs_at(source@, destination@)),
        decreases candidates.len() - k,
    {
        let index = candidates[k];
        proof {
            reveal(Seq::filter);
            let next = candidates@.take(k as int + 1);
            assert(next.drop_last() =~= candidates@.take(k as int));
            assert(next.last() == index);
        }
        if source[index] != destination[index] {
            out.push(index);
        }
        k += 1;
    }
    assert(candidates@.take(candidates.len() as int) =~= candidates@);
    out
}

/// The positions `0 .. n`, as a vector.
fn positions_upto(n: usize) -> (out: Vec<usize>)
    ensures
        out@ == all_positions(n as nat),
{
    let mut out: Vec<usize> = Vec::new();
    let mut k: usize = 0;
    while k < n
        invariant
            k <= n,
            out@ == all_positions(k as nat),
        decreases n - k,
    {
        out.push(k);
        assert(out@ =~= all_positions((k + 1) as nat));
        k += 1;
    }
    out
}

/// Computes the positions at which `source_word` differs from `destination_word`.
///
/// Without previous candidates every position is scanned.  With previous candidates only
/// those are scanned, and the ones that still differ are kept in their order.
pub fn get_swappable_indexes(
    source_word: &str,
    destination_word: &str,
    previous_swappables: Option<Vec<usize>>,
) -> (out: Vec<usize>)
    requires
        source_word@.len() == destination_word@.len(),
        previous_swappables matches Some(prev) ==> forall|k: int|
            0 <= k < prev@.len() ==> prev@[k] < source_word@.len(),
    ensures
        out@ == match previous_swappables {
            Some(prev) => prev@.filter(differs_at(source_word@, destination_word@)),
            None => mismatches(source_word@, destination_word@),
        },
{
    let source = chars_of(source_word);
    let destination = chars_of(destination_word);
    match previous_swappables {
        Some(prev) => keep_differing(&source, &destination, &prev),
        None => {
            let every = positions_upto(source.len());
            keep_differing(&source, &destination, &every)
        },
    }
}

} // verus!
