use crate::anagram::theory::{
    is_anagram, lemma_mismatch_set_finite, lemma_mismatches, lemma_no_mismatch_equal,
    lemma_swap_makes_progress, lemma_swap_symmetric, lemma_wanted_symbol_is_misplaced,
    mismatch_set,
};
use crate::anagram::tree::SearchTree;
use crate::anagram::words::{mismatches, swapped};
use vstd::prelude::*;
use vstd::set_lib::{lemma_int_range, lemma_len_subset, set_int_range};

verus! {

/// The number of words of length `len` over `n` symbols.
pub open spec fn word_bound(n: nat, len: nat) -> nat
    decreases len,
{
    if len == 0 {
        1
    } else {
        n * word_bound(n, (len - 1) as nat)
    }
}

/// A number for the word `w`, read as digits that say where in `t` each symbol occurs.
pub open spec fn code(t: Seq<char>, w: Seq<char>) -> nat
    decreases w.len(),
{
    if w.len() == 0 {
        0
    } else {
        code(t, w.drop_last()) * t.len() + t.index_of(w.last()) as nat
    }
}

/// Every symbol of `w` occurs in `t`.
pub open spec fn spelled_with(w: Seq<char>, t: Seq<char>) -> bool {
    forall|k: int| 0 <= k < w.len() ==> t.contains(#[trigger] w[k])
}

/// An anagram of `t` is spelled with the symbols of `t`.
pub proof fn lemma_anagram_spelled_with(w: Seq<char>, t: Seq<char>)
    requires
        is_anagram(w, t),
    ensures
        spelled_with(w, t),
{
    broadcast use vstd::seq_lib::group_to_multiset_ensures;

    assert forall|k: int| 0 <= k < w.len() implies t.contains(#[trigger] w[k]) by {
        assert(w.contains(w[k]));
        assert(w.to_multiset().count(w[k]) > 0);
        assert(t.to_multiset().count(w[k]) > 0);
    }
}

proof fn lemma_digit_step(c: nat, d: nat, n: nat, b: nat)
    requires
        c < b,
        d < n,
    ensures
        c * n + d < n * b,
{
    assert(c * n + d < n * b) by (nonlinear_arith)
        requires
            c < b,
            d < n,
    ;
}

proof fn lemma_digits_unique(c1: nat, d1: nat, c2: nat, d2: nat, n: nat)
    requires
        d1 < n,
        d2 < n,
        c1 * n + d1 == c2 * n + d2,
    ensures
        c1 == c2,
        d1 == d2,
{
    assert(c1 == c2) by (nonlinear_arith)
        requires
            d1 < n,
            d2 < n,
            c1 * n + d1 == c2 * n + d2,
    ;
}

/// The number of a word lies below the number of words of its length.
pub proof fn lemma_code_bound(t: Seq<char>, w: Seq<char>)
    requires
        spelled_with(w, t),
    ensures
        code(t, w) < word_bound(t.len(), w.len()),
    decreases w.len(),
{
    if w.len() > 0 {
        let rest = w.drop_last();
        assert forall|k: int| 0 <= k < rest.len() implies t.contains(#[trigger] rest[k]) by {
            assert(rest[k] == w[k]);
        }
        lemma_code_bound(t, rest);
        assert(t.contains(w[w.len() - 1]));
        let d = t.index_of(w.last());
        assert(0 <= d < t.len());
        lemma_digit_step(
            code(t, rest),
            d as nat,
            t.len(),
            word_bound(t.len(), (w.len() - 1) as nat),
        );
    }
}

/// Different words of one length have different numbers.
pub proof fn lemma_code_injective(t: Seq<char>, v: Seq<char>, w: Seq<char>)
    requires
        spelled_with(v, t),
        spelled_with(w, t),
        v.len() == w.len(),
        code(t, v) == code(t, w),
    ensures
        v == w,
    decreases v.len(),
{
    if v.len() > 0 {
        let vr = v.drop_last();
        let wr = w.drop_last();
        assert forall|k: int| 0 <= k < vr.len() implies t.contains(#[trigger] vr[k]) by {
            assert(vr[k] == v[k]);
        }
        assert forall|k: int| 0 <= k < wr.len() implies t.contains(#[trigger] wr[k]) by {
            assert(wr[k] == w[k]);
        }
        assert(t.contains(v[v.len() - 1]));
        assert(t.contains(w[w.len() - 1]));
        let dv = t.index_of(v.last());
        let dw = t.index_of(w.last());
        assert(0 <= dv < t.len() && t[dv] == v.last());
        assert(0 <= dw < t.len() && t[dw] == w.last());
        lemma_digits_unique(code(t, vr), dv as nat, code(t, wr), dw as nat, t.len());
        lemma_code_injective(t, vr, wr);
        assert(v =~= vr.push(v.last()));
        assert(w =~= wr.push(w.last()));
    } else {
        assert(v =~= w);
    }
}

/// A well-formed tree holds no more words than there are words of the target's length over
/// as many symbols.
pub proof fn lemma_tree_bounded(tree: &SearchTree)
    requires
        tree.wf(),
    ensures
        tree.nodes@.len() <= word_bound(tree.target@.len(), tree.target@.len()),
{
    let t = tree.target@;
    let bound = word_bound(t.len(), t.len()) as int;
    let codes = Seq::new(tree.nodes@.len(), |k: int| code(t, tree.word(k)) as int);
    assert forall|k: int| 0 <= k < codes.len() implies 0 <= #[trigger] codes[k] < bound by {
        assert(tree.node_ok(k));
        lemma_anagram_spelled_with(tree.word(k), t);
        lemma_code_bound(t, tree.word(k));
    }
    assert forall|i: int, j: int|
        0 <= i < codes.len() && 0 <= j < codes.len() && i != j implies codes[i] != codes[j] by {
        assert(tree.node_ok(i));
        assert(tree.node_ok(j));
        if codes[i] == codes[j] {
            lemma_anagram_spelled_with(tree.word(i), t);
            lemma_anagram_spelled_with(tree.word(j), t);
            lemma_code_injective(t, tree.word(i), tree.word(j));
        }
    }
    codes.unique_seq_to_set();
    lemma_int_range(0, bound);
    assert forall|c: int| codes.to_set().contains(c) implies set_int_range(0, bound).contains(
        c,
    ) by {
        let k = choose|k: int| 0 <= k < codes.len() && codes[k] == c;
        assert(0 <= codes[k] < bound);
    }
    lemma_len_subset(codes.to_set(), set_int_range(0, bound));
}

/// In a well-formed tree whose every word has been expanded, the target can be reached from
/// each word, so it has been discovered.
pub proof fn lemma_expanded_tree_reaches_target(tree: &SearchTree, k: int)
    requires
        tree.wf(),
        0 <= k < tree.nodes@.len(),
        forall|e: int| 0 <= e < tree.nodes@.len() ==> tree.expanded(e),
    ensures
        tree.visited().contains(tree.target@),
    decreases mismatch_set(tree.word(k), tree.target@).len(),
{
    let w = tree.word(k);
    let t = tree.target@;
    assert(tree.node_ok(k));
    lemma_mismatch_set_finite(w, t);
    if mismatch_set(w, t).len() == 0 {
        lemma_no_mismatch_equal(w, t);
    } else {
        let i = mismatch_set(w, t).choose();
        assert(mismatch_set(w, t).contains(i));
        let j = lemma_wanted_symbol_is_misplaced(w, t, i);
        lemma_swap_makes_progress(w, t, i, j);
        lemma_swap_symmetric(w, i, j);
        let lo = if i < j {
            i
        } else {
            j
        };
        let hi = if i < j {
            j
        } else {
            i
        };
        let m = mismatches(w, t);
        lemma_mismatches(w, t);
        assert(m.contains(lo as usize));
        assert(m.contains(hi as usize));
        let a = choose|a: int| 0 <= a < m.len() && m[a] == lo as usize;
        let b = choose|b: int| 0 <= b < m.len() && m[b] == hi as usize;
        if b < a {
            assert(m[b] < m[a]);
        }
        assert(a < b);
        assert(tree.expanded(k));
        let found = swapped(w, m[a] as int, m[b] as int);
        assert(tree.index@.contains_key(found));
        assert(found == swapped(w, i, j));
        let next = tree.index@[found] as int;
        assert(tree.word(next) == found);
        lemma_expanded_tree_reaches_target(tree, next);
    }
}

} // verus!
