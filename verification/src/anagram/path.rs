use crate::anagram::theory::{
    differ_in_two_positions, is_anagram, lemma_anagram_transitive, lemma_swap_step_differs_in_two,
    swap_step,
};
use crate::anagram::tree::SearchTree;
use vstd::prelude::*;

verus! {

/// The order in which a chain of parents is handed out.
#[derive(Clone, Copy, Debug, PartialEq, Eq, Structural)]
pub enum Direction {
    /// As it is walked: the given word first, the root last.
    Forward,
    /// Turned round: the root first, the given word last.
    Backward,
}

/// The words that a sequence of strings holds.
pub open spec fn words_of(v: Seq<String>) -> Seq<Seq<char>> {
    Seq::new(v.len(), |k: int| v[k]@)
}

/// `p` leads from `a` to `b` by steps that each exchange two different symbols.
pub open spec fn is_swap_path(p: Seq<Seq<char>>, a: Seq<char>, b: Seq<char>) -> bool {
    &&& p.len() >= 1
    &&& p[0] == a
    &&& p[p.len() - 1] == b
    &&& forall|t: int| 0 <= t < p.len() - 1 ==> swap_step(#[trigger] p[t], p[t + 1])
}

/// Each two neighbours on a swap path differ in exactly two positions and agree everywhere
/// else.
pub proof fn lemma_path_steps_differ_in_two(p: Seq<Seq<char>>, a: Seq<char>, b: Seq<char>, t: int)
    requires
        is_swap_path(p, a, b),
        0 <= t < p.len() - 1,
    ensures
        differ_in_two_positions(p[t], p[t + 1]),
{
    lemma_swap_step_differs_in_two(p[t], p[t + 1]);
}

/// Every word on a swap path is an anagram of the word that the path starts with.
pub proof fn lemma_path_words_are_anagrams(p: Seq<Seq<char>>, a: Seq<char>, b: Seq<char>, t: int)
    requires
        is_swap_path(p, a, b),
        0 <= t < p.len(),
    ensures
        is_anagram(p[t], a),
    decreases t,
{
    if t > 0 {
        lemma_path_words_are_anagrams(p, a, b, t - 1);
        lemma_swap_step_differs_in_two(p[t - 1], p[t]);
        lemma_anagram_transitive(p[t], p[t - 1], a);
    }
}

/// A chain of parents starts at the given word, ends at the root, stays within the
/// discovered words, and each of its words is one swap step away from the next.
pub proof fn lemma_chain(tree: &SearchTree, k: int)
    requires
        tree.wf(),
        0 <= k < tree.nodes@.len(),
    ensures
        is_swap_path(tree.chain(k).reverse(), tree.word(0), tree.word(k)),
        is_swap_path(tree.chain(k), tree.word(k), tree.word(0)),
        forall|t: int|
            0 <= t < tree.chain(k).len() ==> tree.visited().contains(#[trigger] tree.chain(k)[t]),
        k == 0 ==> tree.chain(k) == seq![tree.word(0)],
    decreases k,
{
    let c = tree.chain(k);
    assert(tree.node_ok(k));
    assert(tree.node_ok(0));
    if k > 0 {
        let p = tree.nodes@[k].parent->0 as int;
        lemma_chain(tree, p);
        let rest = tree.chain(p);
        assert(c == seq![tree.word(k)] + rest);
        lemma_swap_step_differs_in_two(tree.word(p), tree.word(k));
        assert forall|t: int| 0 <= t < c.len() - 1 implies swap_step(#[trigger] c[t], c[t + 1]) by {
            if t > 0 {
                assert(c[t] == rest[t - 1]);
                assert(c[t + 1] == rest[t]);
            }
        }
        let r = c.reverse();
        let rr = rest.reverse();
        assert forall|t: int| 0 <= t < r.len() - 1 implies swap_step(#[trigger] r[t], r[t + 1]) by {
            if t < r.len() - 2 {
                assert(r[t] == rr[t]);
                assert(r[t + 1] == rr[t + 1]);
            } else {
                assert(r[t] == rest[0]);
                assert(r[t + 1] == c[0]);
            }
        }
        assert forall|t: int| 0 <= t < c.len() implies tree.visited().contains(
            #[trigger] c[t],
        ) by {
            if t > 0 {
                assert(c[t] == rest[t - 1]);
            }
        }
    }
}

/// The places of the words on the chain of parents from number `k` back to the root.
pub open spec fn chain_places(tree: &SearchTree, k: int) -> Seq<int>
    decreases k,
{
    if k <= 0 {
        seq![0int]
    } else {
        match tree.nodes@[k].parent {
            Some(p) => if p < k {
                seq![k] + chain_places(tree, p as int)
            } else {
                seq![k]
            },
            None => seq![k],
        }
    }
}

/// The chain of parents holds the words at its places, which fall from the given place
/// towards the root, so no word stands on it twice.
pub proof fn lemma_chain_is_simple(tree: &SearchTree, k: int)
    requires
        tree.wf(),
        0 <= k < tree.nodes@.len(),
    ensures
        chain_places(tree, k).len() == tree.chain(k).len(),
        chain_places(tree, k)[0] == k,
        forall|t: int|
            0 <= t < tree.chain(k).len() ==> 0 <= #[trigger] chain_places(tree, k)[t] <= k
                && tree.chain(k)[t] == tree.word(chain_places(tree, k)[t]),
        forall|t: int| 0 < t < tree.chain(k).len() ==> #[trigger] chain_places(tree, k)[t] < k,
        tree.chain(k).no_duplicates(),
    decreases k,
{
    assert(tree.node_ok(k));
    if k > 0 {
        let p = tree.nodes@[k].parent->0 as int;
        lemma_chain_is_simple(tree, p);
        let c = tree.chain(k);
        let rest = tree.chain(p);
        let places = chain_places(tree, k);
        let rest_places = chain_places(tree, p);
        assert(c == seq![tree.word(k)] + rest);
        assert(places == seq![k] + rest_places);
        assert forall|t: int| 0 <= t < c.len() implies 0 <= #[trigger] places[t] <= k && c[t]
            == tree.word(places[t]) by {
            if t > 0 {
                assert(places[t] == rest_places[t - 1]);
                assert(c[t] == rest[t - 1]);
            }
        }
        assert forall|t: int| 0 < t < c.len() implies #[trigger] places[t] < k by {
            assert(places[t] == rest_places[t - 1]);
        }
        assert forall|i: int, j: int| 0 <= i < c.len() && 0 <= j < c.len() && i != j implies c[i]
            != c[j] by {
            assert(c[i] == tree.word(places[i]) && c[j] == tree.word(places[j]));
            assert(tree.node_ok(places[i]));
            assert(tree.node_ok(places[j]));
            if i == 0 {
                assert(places[j] < k);
            } else if j == 0 {
                assert(places[i] < k);
            } else {
                assert(rest[i - 1] != rest[j - 1]);
                assert(c[i] == rest[i - 1] && c[j] == rest[j - 1]);
            }
        }
    } else {
        assert(tree.chain(k) =~= seq![tree.word(0)]);
    }
}

/// Walks from `child` along the parents to the root of the tree.
///
/// `Direction::Forward` hands the words out as they are walked, `child` first;
/// `Direction::Backward` hands them out with the root first.
pub fn path_from_parent_mapping(mapping: &SearchTree, child: &String, direction: Direction) -> (path:
    Vec<String>)
    requires
        mapping.wf(),
        mapping.visited().contains(child@),
    ensures
        words_of(path@) == match direction {
            Direction::Forward => mapping.chain(mapping.index@[child@] as int),
            Direction::Backward => mapping.chain(mapping.index@[child@] as int).reverse(),
        },
{
    let start = match mapping.position(child.as_str()) {
        Some(k) => k,
        None => 0,
    };
    let mut path: Vec<String> = Vec::new();
    path.push(mapping.nodes[start].word.clone());
    let mut k = start;
    assert(words_of(path@) =~= seq![mapping.word(k as int)]);
    loop
        invariant
            mapping.wf(),
            0 <= k < mapping.nodes@.len(),
            path@.len() >= 1,
            words_of(path@).drop_last() + mapping.chain(k as int) == mapping.chain(start as int),
            words_of(path@).last() == mapping.word(k as int),
        ensures
            words_of(path@) == mapping.chain(start as int),
        decreases k,
    {
        assert(mapping.node_ok(k as int));
        match mapping.nodes[k].parent {
            Some(p) => {
                let ghost before = words_of(path@);
                path.push(mapping.nodes[p].word.clone());
                proof {
                    let after = words_of(path@);
                    assert(after.drop_last() =~= before);
                    assert(before =~= before.drop_last() + seq![mapping.word(k as int)]);
                    assert(mapping.chain(k as int) == seq![mapping.word(k as int)] + mapping.chain(
                        p as int,
                    ));
                    assert(after.drop_last() + mapping.chain(p as int) =~= before.drop_last()
                        + mapping.chain(k as int));
                }
                k = p;
            },
            None => {
                proof {
                    assert(mapping.chain(k as int) =~= seq![mapping.word(k as int)]);
                    assert(words_of(path@) =~= words_of(path@).drop_last() + mapping.chain(
                        k as int,
                    ));
                }
                break ;
            },
        }
    }
    match direction {
        Direction::Forward => path,
        Direction::Backward => {
            let ghost walked = words_of(path@);
            let mut turned: Vec<String> = Vec::new();
            while path.len() > 0
                invariant
                    path@.len() <= walked.len(),
                    words_of(path@) == walked.take(path@.len() as int),
                    words_of(turned@) == walked.skip(path@.len() as int).reverse(),
                decreases path@.len(),
            {
                let ghost before = words_of(turned@);
                let ghost n = path@.len() as int;
                let ghost last = words_of(path@)[n - 1];
                let word = path.pop().unwrap();
                turned.push(word);
                proof {
                    assert(last == walked.take(n)[n - 1]);
                    assert(word@ == last);
                    assert(words_of(path@) =~= walked.take(n - 1));
                    assert(words_of(turned@) =~= before.push(walked[n - 1]));
                    assert(words_of(turned@) =~= walked.skip(n - 1).reverse());
                }
            }
            assert(walked.skip(0) =~= walked);
            turned
        },
    }
}

/// Joins the walk from the first root to the meeting word `child` with the walk from
/// `child` to the second root; `child` itself stands in the result once.
pub fn path_from_both_parent_mapping(
    forward_mapping: &SearchTree,
    backward_mapping: &SearchTree,
    child: &String,
) -> (path: Vec<String>)
    requires
        forward_mapping.wf(),
        backward_mapping.wf(),
        forward_mapping.visited().contains(child@),
        backward_mapping.visited().contains(child@),
    ensures
        words_of(path@) == forward_mapping.chain(forward_mapping.index@[child@] as int).reverse()
            + backward_mapping.chain(backward_mapping.index@[child@] as int).skip(1),
{
    let mut path = path_from_parent_mapping(forward_mapping, child, Direction::Backward);
    let reverse_path = path_from_parent_mapping(backward_mapping, child, Direction::Forward);
    let ghost first = words_of(path@);
    let ghost second = words_of(reverse_path@);
    proof {
        lemma_chain(backward_mapping, backward_mapping.index@[child@] as int);
    }
    let mut k: usize = 1;
    while k < reverse_path.len()
        invariant
            1 <= k <= reverse_path@.len(),
            second == words_of(reverse_path@),
            words_of(path@) == first + second.subrange(1, k as int),
        decreases reverse_path@.len() - k,
    {
        let ghost before = words_of(path@);
        path.push(reverse_path[k].clone());
        proof {
            assert(words_of(path@) =~= before.push(second[k as int]));
            assert(second.subrange(1, k as int + 1) =~= second.subrange(1, k as int).push(
                second[k as int],
            ));
        }
        k += 1;
    }
    assert(second.subrange(1, k as int) =~= second.skip(1));
    path
}

} // verus!
