use crate::anagram::words::{all_positions, differs_at, mismatches, swapped};
use vstd::prelude::*;
use vstd::set_lib::{lemma_int_range, lemma_len_subset, set_int_range};

verus! {

/// How often the symbol `c` occurs in `s`.
pub open spec fn occurrences(s: Seq<char>, c: char) -> nat
    decreases s.len(),
{
    if s.len() == 0 {
        0
    } else {
        occurrences(s.drop_last(), c) + if s.last() == c {
            1nat
        } else {
            0nat
        }
    }
}

/// Two words are anagrams of one another when they have the same length and hold the same
/// symbols with the same multiplicities.
pub open spec fn is_anagram(a: Seq<char>, b: Seq<char>) -> bool {
    a.len() == b.len() && a.to_multiset() =~= b.to_multiset()
}

/// The set of positions at which `s` differs from `r`.
pub open spec fn mismatch_set(s: Seq<char>, r: Seq<char>) -> Set<int> {
    Set::new(|k: int| 0 <= k < s.len() && s[k] != r[k])
}

/// `q` results from `p` by exchanging two different symbols.
pub open spec fn swap_step(p: Seq<char>, q: Seq<char>) -> bool {
    exists|i: int, j: int|
        0 <= i < j < p.len() && p[i] != p[j] && q == #[trigger] swapped(p, i, j)
}

/// `p` and `q` differ in exactly two positions and agree everywhere else.
pub open spec fn differ_in_two_positions(p: Seq<char>, q: Seq<char>) -> bool {
    p.len() == q.len() && exists|i: int, j: int|
        0 <= i < j < p.len() && #[trigger] p[i] != q[i] && #[trigger] p[j] != q[j] && forall|
            k: int,
        |
            0 <= k < p.len() && k != i && k != j ==> p[k] == q[k]
}

/// The multiplicity of a symbol in the multiset of a word is its number of occurrences.
pub proof fn lemma_occurrences_is_count(s: Seq<char>, c: char)
    ensures
        s.to_multiset().count(c) == occurrences(s, c),
    decreases s.len(),
{
    broadcast use vstd::seq_lib::group_to_multiset_ensures;

    if s.len() == 0 {
        assert(s.to_multiset().len() == 0);
        if s.to_multiset().count(c) > 0 {
            assert(s.contains(c));
        }
    } else {
        let rest = s.drop_last();
        lemma_occurrences_is_count(rest, c);
        assert(rest.push(s.last()) =~= s);
        assert(s.to_multiset() =~= rest.to_multiset().insert(s.last()));
    }
}

/// Anagrams hold every symbol equally often.
pub proof fn lemma_anagram_occurrences(a: Seq<char>, b: Seq<char>, c: char)
    requires
        is_anagram(a, b),
    ensures
        occurrences(a, c) == occurrences(b, c),
{
    lemma_occurrences_is_count(a, c);
    lemma_occurrences_is_count(b, c);
}

/// Words of equal length that hold every symbol equally often are anagrams.
pub proof fn lemma_occurrences_anagram(a: Seq<char>, b: Seq<char>)
    requires
        a.len() == b.len(),
        forall|c: char| occurrences(a, c) == occurrences(b, c),
    ensures
        is_anagram(a, b),
{
    assert forall|c: char| a.to_multiset().count(c) == b.to_multiset().count(c) by {
        lemma_occurrences_is_count(a, c);
        lemma_occurrences_is_count(b, c);
    }
}

/// Replacing one symbol removes one occurrence of the old symbol and adds one of the new.
pub proof fn lemma_occurrences_update(s: Seq<char>, i: int, x: char, c: char)
    requires
        0 <= i < s.len(),
    ensures
        occurrences(s.update(i, x), c) + (if s[i] == c {
            1nat
        } else {
            0nat
        }) == occurrences(s, c) + (if x == c {
            1nat
        } else {
            0nat
        }),
    decreases s.len(),
{
    let t = s.update(i, x);
    if i == s.len() - 1 {
        assert(t.drop_last() =~= s.drop_last());
    } else {
        assert(t.drop_last() =~= s.drop_last().update(i, x));
        lemma_occurrences_update(s.drop_last(), i, x, c);
    }
}

/// Exchanging two symbols of a word gives an anagram of it.
pub proof fn lemma_swap_is_anagram(s: Seq<char>, i: int, j: int)
    requires
        0 <= i < s.len(),
        0 <= j < s.len(),
    ensures
        is_anagram(swapped(s, i, j), s),
{
    let w = swapped(s, i, j);
    assert forall|c: char| occurrences(w, c) == occurrences(s, c) by {
        lemma_occurrences_update(s, i, s[j], c);
        lemma_occurrences_update(s.update(i, s[j]), j, s[i], c);
    }
    lemma_occurrences_anagram(w, s);
}

/// Being anagrams is transitive.
pub proof fn lemma_anagram_transitive(a: Seq<char>, b: Seq<char>, c: Seq<char>)
    requires
        is_anagram(a, b),
        is_anagram(b, c),
    ensures
        is_anagram(a, c),
{
}

/// Exchanging the same two positions twice gives the word back, and the order in which the
/// two positions are named does not matter.
pub proof fn lemma_swap_symmetric(s: Seq<char>, i: int, j: int)
    requires
        0 <= i < s.len(),
        0 <= j < s.len(),
    ensures
        swapped(s, i, j) == swapped(s, j, i),
        swapped(swapped(s, i, j), i, j) == s,
{
    assert(swapped(s, i, j) =~= swapped(s, j, i));
    assert(swapped(swapped(s, i, j), i, j) =~= s);
}

/// A swap step changes exactly two positions.
pub proof fn lemma_swap_step_differs_in_two(p: Seq<char>, q: Seq<char>)
    requires
        swap_step(p, q),
    ensures
        differ_in_two_positions(p, q),
        swap_step(q, p),
        is_anagram(q, p),
{
    let (i, j) = choose|i: int, j: int|
        0 <= i < j < p.len() && p[i] != p[j] && q == #[trigger] swapped(p, i, j);
    assert(p[i] != q[i] && p[j] != q[j]);
    lemma_swap_symmetric(p, i, j);
    assert(q[i] != q[j] && p == swapped(q, i, j));
    lemma_swap_is_anagram(p, i, j);
}

/// If `r` carries `c` wherever `s` does, then `c` occurs in `r` at least as often as in `s`,
/// and more often when `r` carries it somewhere `s` does not.
proof fn lemma_occurrences_dominated(s: Seq<char>, r: Seq<char>, c: char)
    requires
        s.len() == r.len(),
        forall|k: int| 0 <= k < s.len() && s[k] == c ==> r[k] == c,
    ensures
        occurrences(s, c) <= occurrences(r, c),
        (exists|i: int| 0 <= i < s.len() && r[i] == c && s[i] != c) ==> occurrences(s, c)
            < occurrences(r, c),
    decreases s.len(),
{
    if s.len() > 0 {
        lemma_occurrences_dominated(s.drop_last(), r.drop_last(), c);
        if exists|i: int| 0 <= i < s.len() && r[i] == c && s[i] != c {
            let i = choose|i: int| 0 <= i < s.len() && r[i] == c && s[i] != c;
            if i < s.len() - 1 {
                assert(r.drop_last()[i] == c && s.drop_last()[i] != c);
            }
        }
    }
}

/// In a word that is an anagram of `r`, the symbol that `r` wants at a differing position
/// stands at another differing position.
pub proof fn lemma_wanted_symbol_is_misplaced(s: Seq<char>, r: Seq<char>, i: int) -> (j: int)
    requires
        is_anagram(s, r),
        0 <= i < s.len(),
        s[i] != r[i],
    ensures
        0 <= j < s.len(),
        j != i,
        s[j] == r[i],
        s[j] != r[j],
{
    let c = r[i];
    if forall|k: int| 0 <= k < s.len() && s[k] == c ==> r[k] == c {
        lemma_occurrences_dominated(s, r, c);
        lemma_anagram_occurrences(s, r, c);
        assert(false);
    }
    choose|k: int| 0 <= k < s.len() && s[k] == c && r[k] != c
}

/// The set of differing positions is finite and no larger than the word.
pub proof fn lemma_mismatch_set_finite(s: Seq<char>, r: Seq<char>)
    ensures
        mismatch_set(s, r).finite(),
        mismatch_set(s, r).len() <= s.len(),
{
    lemma_int_range(0, s.len() as int);
    assert(mismatch_set(s, r).subset_of(set_int_range(0, s.len() as int)));
    lemma_len_subset(mismatch_set(s, r), set_int_range(0, s.len() as int));
}

/// Words of equal length without a differing position are equal.
pub proof fn lemma_no_mismatch_equal(s: Seq<char>, r: Seq<char>)
    requires
        s.len() == r.len(),
        mismatch_set(s, r).len() == 0,
    ensures
        s == r,
{
    lemma_mismatch_set_finite(s, r);
    assert forall|k: int| 0 <= k < s.len() implies s[k] == r[k] by {
        if s[k] != r[k] {
            assert(mismatch_set(s, r).contains(k));
        }
    }
    assert(s =~= r);
}

/// Moving a wanted symbol to its place leaves strictly fewer differing positions.
pub proof fn lemma_swap_makes_progress(s: Seq<char>, r: Seq<char>, i: int, j: int)
    requires
        s.len() == r.len(),
        0 <= i < s.len(),
        0 <= j < s.len(),
        s[i] != r[i],
        s[j] != r[j],
        s[j] == r[i],
    ensures
        mismatch_set(swapped(s, i, j), r).len() < mismatch_set(s, r).len(),
{
    let before = mismatch_set(s, r);
    let after = mismatch_set(swapped(s, i, j), r);
    lemma_mismatch_set_finite(s, r);
    assert(before.contains(i));
    assert(after.subset_of(before.remove(i)));
    lemma_len_subset(after, before.remove(i));
}

/// What the list of differing positions holds: exactly the differing positions, each once,
/// in increasing order.
pub proof fn lemma_mismatches_upto(s: Seq<char>, r: Seq<char>, n: nat)
    requires
        n <= s.len(),
        s.len() == r.len(),
        s.len() <= usize::MAX,
    ensures
        ({
            let m = all_positions(n).filter(differs_at(s, r));
            &&& m.len() <= n
            &&& forall|a: int| 0 <= a < m.len() ==> m[a] < n && s[m[a] as int] != r[m[a] as int]
            &&& forall|a: int, b: int| 0 <= a < b < m.len() ==> m[a] < m[b]
            &&& forall|k: int| 0 <= k < n && s[k] != r[k] ==> m.contains(k as usize)
        }),
    decreases n,
{
    reveal(Seq::filter);
    let m = all_positions(n).filter(differs_at(s, r));
    if n > 0 {
        let before = all_positions((n - 1) as nat);
        let mb = before.filter(differs_at(s, r));
        assert(all_positions(n).drop_last() =~= before);
        assert(all_positions(n).last() == (n - 1) as usize);
        lemma_mismatches_upto(s, r, (n - 1) as nat);
        if s[n - 1] != r[n - 1] {
            assert(m == mb.push((n - 1) as usize));
            assert(m[m.len() - 1] == (n - 1) as usize);
            assert forall|k: int| 0 <= k < n && s[k] != r[k] implies m.contains(k as usize) by {
                if k < n - 1 {
                    assert(mb.contains(k as usize));
                    let a = choose|a: int| 0 <= a < mb.len() && mb[a] == k as usize;
                    assert(m[a] == k as usize);
                } else {
                    assert(m[m.len() - 1] == k as usize);
                }
            }
        } else {
            assert(m == mb);
        }
    }
}

/// The list of differing positions of `s` against `r`.
pub proof fn lemma_mismatches(s: Seq<char>, r: Seq<char>)
    requires
        s.len() == r.len(),
        s.len() <= usize::MAX,
    ensures
        ({
            let m = mismatches(s, r);
            &&& m.len() <= s.len()
            &&& forall|a: int|
                0 <= a < m.len() ==> m[a] < s.len() && s[m[a] as int] != r[m[a] as int]
            &&& forall|a: int, b: int| 0 <= a < b < m.len() ==> m[a] < m[b]
            &&& forall|k: int| 0 <= k < s.len() && s[k] != r[k] ==> m.contains(k as usize)
        }),
{
    lemma_mismatches_upto(s, r, s.len());
}

/// Filtering twice, where the second predicate implies the first on every element, is
/// filtering by the second predicate alone.
proof fn lemma_filter_narrowed<A>(x: Seq<A>, p: spec_fn(A) -> bool, q: spec_fn(A) -> bool)
    requires
        forall|k: int| 0 <= k < x.len() && q(x[k]) ==> p(x[k]),
    ensures
        x.filter(p).filter(q) == x.filter(q),
    decreases x.len(),
{
    reveal(Seq::filter);
    if x.len() > 0 {
        let xs = x.drop_last();
        lemma_filter_narrowed(xs, p, q);
        if p(x.last()) {
            let y = xs.filter(p).push(x.last());
            assert(y.drop_last() =~= xs.filter(p));
            assert(y.last() == x.last());
        }
    }
}

/// After a swap of two differing positions, narrowing the old list of differing positions
/// gives the same list as a full scan of the new word.
pub proof fn lemma_narrowing_is_full_scan(s: Seq<char>, r: Seq<char>, i: int, j: int)
    requires
        s.len() == r.len(),
        s.len() <= usize::MAX,
        0 <= i < s.len(),
        0 <= j < s.len(),
        s[i] != r[i],
        s[j] != r[j],
    ensures
        mismatches(s, r).filter(differs_at(swapped(s, i, j), r)) == mismatches(
            swapped(s, i, j),
            r,
        ),
{
    let w = swapped(s, i, j);
    let x = all_positions(s.len());
    assert forall|k: int| 0 <= k < x.len() && differs_at(w, r)(x[k]) implies differs_at(s, r)(
        x[k],
    ) by {
        assert(x[k] == k as usize);
    }
    lemma_filter_narrowed(x, differs_at(s, r), differs_at(w, r));
    assert(all_positions(w.len()) == x);
}

/// `to` results from `from` by exchanging two different symbols at positions at which
/// `from` differs from `target`.
pub open spec fn restricted_step(from: Seq<char>, to: Seq<char>, target: Seq<char>) -> bool {
    exists|i: int, j: int|
        0 <= i < j < from.len() && from[i] != target[i] && from[j] != target[j] && from[i]
            != from[j] && to == #[trigger] swapped(from, i, j)
}

/// Two swaps turn `a` into `b`, and fewer do not.
pub open spec fn two_swaps_apart(a: Seq<char>, b: Seq<char>) -> bool {
    a != b && !swap_step(a, b) && exists|x: Seq<char>| swap_step(a, x) && #[trigger] swap_step(x, b)
}

/// Exchanging two different symbols is a swap step, in whichever order the two positions
/// are given.
proof fn lemma_swap_onto(a: Seq<char>, b: Seq<char>, i: int, l: int)
    requires
        0 <= i < a.len(),
        0 <= l < a.len(),
        i != l,
        a[i] != a[l],
        b =~= swapped(a, i, l),
    ensures
        swap_step(a, b),
{
    if i < l {
        assert(b == swapped(a, i, l));
    } else {
        assert(b =~= swapped(a, l, i));
        assert(b == swapped(a, l, i));
    }
}

/// Where two swaps turn `a` into `b` and fewer do not, the word in the middle is one
/// restricted step away from either end.
pub proof fn lemma_middle_is_restricted(a: Seq<char>, x: Seq<char>, b: Seq<char>)
    requires
        swap_step(a, x),
        swap_step(x, b),
        a != b,
        !swap_step(a, b),
    ensures
        restricted_step(a, x, b),
        restricted_step(b, x, a),
{
    let (i, j) = choose|i: int, j: int|
        0 <= i < j < a.len() && a[i] != a[j] && x == #[trigger] swapped(a, i, j);
    let (k, l) = choose|k: int, l: int|
        0 <= k < l < x.len() && x[k] != x[l] && b == #[trigger] swapped(x, k, l);
    assert(x.len() == a.len() && b.len() == a.len());
    assert(x =~= swapped(b, k, l));
    assert(b[k] != b[l]);
    if k == i && l == j {
        assert(b =~= a);
    } else if k == i {
        if a[i] == a[l] {
            lemma_swap_onto(a, b, j, l);
        }
    } else if l == j {
        if a[j] == a[k] {
            lemma_swap_onto(a, b, i, k);
        }
    } else if k == j {
        if a[j] == b[j] {
            lemma_swap_onto(a, b, i, l);
        }
    } else if l == i {
        if a[i] == b[i] {
            lemma_swap_onto(a, b, k, j);
        }
    }
    assert(a[i] != b[i] && a[j] != b[j]);
    assert(b[k] != a[k] && b[l] != a[l]);
    assert(x == swapped(a, i, j));
    assert(x == swapped(b, k, l));
}

} // verus!
