use crate::anagram::bound::{lemma_expanded_tree_reaches_target, lemma_tree_bounded, word_bound};
use crate::anagram::path::{
    chain_places, is_swap_path, lemma_chain, lemma_chain_is_simple, path_from_both_parent_mapping,
    words_of,
};
use crate::anagram::theory::{
    is_anagram, lemma_middle_is_restricted, lemma_mismatches, lemma_swap_symmetric,
    restricted_step, swap_step, two_swaps_apart,
};
use crate::anagram::tree::{
    found_by_all, lemma_found_are_neighbours, lemma_found_holds_tried, MismatchPolicy, SearchTree,
};
use crate::anagram::words::{mismatches, swapped};
use vstd::prelude::*;

verus! {

/// Where a bidirectional search stands after a round.
pub enum SearchState {
    /// No word has been discovered from both sides yet, and both frontiers hold words.
    Running,
    /// The word given has been discovered from both sides.
    Met(String),
    /// A frontier ran empty before the trees met.
    Exhausted,
}

/// Two search trees that grow towards one another: `forward` from the start word towards
/// the goal, `backward` from the goal towards the start.
pub struct BidirectionalSearch {
    pub forward: SearchTree,
    pub backward: SearchTree,
}

/// Growth keeps what was expanded expanded.
pub proof fn lemma_expanded_stays(before: &SearchTree, after: &SearchTree, k: int)
    requires
        after.extends(before),
        0 <= k < before.nodes@.len(),
        before.expanded(k),
    ensures
        after.expanded(k),
{
    assert(after.nodes@[k] == before.nodes@[k]);
    assert forall|a: int, b: int| 0 <= a < b < after.nodes@[k].swappables@.len() implies after.index@.contains_key(
    #[trigger] swapped(
        after.word(k),
        after.nodes@[k].swappables@[a] as int,
        after.nodes@[k].swappables@[b] as int,
    )) by {
        assert(before.index@.contains_key(
            swapped(
                before.word(k),
                before.nodes@[k].swappables@[a] as int,
                before.nodes@[k].swappables@[b] as int,
            ),
        ));
    }
}

impl BidirectionalSearch {
    /// No word of the forward tree has been discovered by the backward tree.
    pub open spec fn separate(&self) -> bool {
        forall|k: int|
            0 <= k < self.forward.nodes@.len() ==> !self.backward.visited().contains(
                #[trigger] self.forward.word(k),
            )
    }

    /// What holds between rounds while the search runs: each tree is well formed and aims
    /// at the other's root, both have expanded equally many words and all neighbours of
    /// those words are discovered, and once a round has passed the trees share no word.
    pub open spec fn wf(&self) -> bool {
        &&& self.forward.wf()
        &&& self.backward.wf()
        &&& self.forward.target@ == self.backward.word(0)
        &&& self.backward.target@ == self.forward.word(0)
        &&& self.forward.next == self.backward.next
        &&& forall|k: int| 0 <= k < self.forward.next ==> #[trigger] self.forward.expanded(k)
        &&& forall|k: int| 0 <= k < self.backward.next ==> #[trigger] self.backward.expanded(k)
        &&& self.forward.next > 0 ==> self.separate()
    }

    /// `self` is what one round makes of `before`, and `state` is where the search stands
    /// after it.  A round expands the next word of the forward tree against the words of
    /// the backward tree; unless the trees met there, it then expands the next word of the
    /// backward tree against the words of the forward tree as it has grown.
    pub open spec fn round_of(&self, before: &BidirectionalSearch, state: SearchState) -> bool {
        match state {
            SearchState::Exhausted => false,
            SearchState::Met(word) => {
                ||| exists|m: usize|
                    {
                        &&& #[trigger] self.forward.expansion_of(
                            &before.forward,
                            before.backward.visited(),
                            Some(m),
                        )
                        &&& self.backward == before.backward
                        &&& word@ == self.forward.word(m as int)
                    }
                ||| exists|m: usize|
                    {
                        &&& self.forward.expansion_of(
                            &before.forward,
                            before.backward.visited(),
                            None,
                        )
                        &&& #[trigger] self.backward.expansion_of(
                            &before.backward,
                            self.forward.visited(),
                            Some(m),
                        )
                        &&& word@ == self.backward.word(m as int)
                    }
            },
            SearchState::Running => {
                &&& self.forward.expansion_of(&before.forward, before.backward.visited(), None)
                &&& self.backward.expansion_of(&before.backward, self.forward.visited(), None)
            },
        }
    }

    /// No round has run yet of a search from `a` to `b`: each tree holds its root alone.
    pub open spec fn starts(&self, a: Seq<char>, b: Seq<char>, policy: MismatchPolicy) -> bool {
        &&& self.forward.wf()
        &&& self.forward.nodes@.len() == 1
        &&& self.forward.next == 0
        &&& self.forward.word(0) == a
        &&& self.forward.target@ == b
        &&& self.forward.policy == policy
        &&& self.backward.wf()
        &&& self.backward.nodes@.len() == 1
        &&& self.backward.next == 0
        &&& self.backward.word(0) == b
        &&& self.backward.target@ == a
        &&& self.backward.policy == policy
    }

    /// The path through the meeting word `word`: from the forward root along the forward
    /// tree to `word`, and on along the backward tree to the backward root.
    pub open spec fn path_through(&self, word: Seq<char>) -> Seq<Seq<char>> {
        self.forward.chain(self.forward.index@[word] as int).reverse() + self.backward.chain(
            self.backward.index@[word] as int,
        ).skip(1)
    }

    /// A search from `word_a` to `word_b` of which no round has run yet.
    pub fn new(word_a: &str, word_b: &str, policy: MismatchPolicy) -> (search: Self)
        requires
            is_anagram(word_a@, word_b@),
        ensures
            search.wf(),
            search.starts(word_a@, word_b@, policy),
    {
        let forward = SearchTree::new(word_a, word_b, policy);
        let backward = SearchTree::new(word_b, word_a, policy);
        BidirectionalSearch { forward, backward }
    }

    /// While the search runs, neither frontier is empty.
    pub proof fn lemma_never_exhausted(&self)
        requires
            self.wf(),
        ensures
            self.forward.next < self.forward.nodes@.len(),
            self.backward.next < self.backward.nodes@.len(),
    {
        assert(self.forward.node_ok(0));
        assert(self.backward.node_ok(0));
        if self.forward.next >= self.forward.nodes@.len() {
            lemma_expanded_tree_reaches_target(&self.forward, 0);
            let k = self.forward.index@[self.forward.target@] as int;
            assert(self.forward.word(k) == self.backward.word(0));
        } else if self.backward.next >= self.backward.nodes@.len() {
            lemma_expanded_tree_reaches_target(&self.backward, 0);
        }
    }

    /// Runs one round: expands one word of the forward tree and, unless the trees met, one
    /// word of the backward tree.
    pub fn advance(&mut self) -> (state: SearchState)
        requires
            old(self).wf(),
        ensures
            final(self).forward.wf(),
            final(self).backward.wf(),
            final(self).forward.extends(&old(self).forward),
            final(self).backward.extends(&old(self).backward),
            final(self).round_of(old(self), state),
            match state {
                SearchState::Running => final(self).wf() && final(self).forward.next
                    == old(self).forward.next + 1,
                SearchState::Met(word) => final(self).forward.visited().contains(word@)
                    && final(self).backward.visited().contains(word@),
                SearchState::Exhausted => false,
            },
            old(self).backward.visited().contains(
                old(self).forward.word(old(self).forward.next as int),
            ) ==> (state matches SearchState::Met(word) && word@ == old(self).forward.word(
                old(self).forward.next as int,
            )),
    {
        proof {
            self.lemma_never_exhausted();
        }
        if !self.forward.has_pending() || !self.backward.has_pending() {
            return SearchState::Exhausted;
        }
        let ghost before_forward = self.forward;
        let met_forward = self.forward.expand_next(&self.backward);
        proof {
            assert forall|k: int| 0 <= k < self.forward.nodes@.len() implies #[trigger] self.forward.node_ok(
                k,
            ) by {}
        }
        match met_forward {
            Some(m) => {
                assert(self.forward.node_ok(m as int));
                return SearchState::Met(self.forward.nodes[m].word.clone());
            },
            None => {},
        }
        proof {
            assert forall|k: int| 0 <= k < self.forward.next implies #[trigger] self.forward.expanded(
                k,
            ) by {
                if k < before_forward.next {
                    assert(before_forward.expanded(k));
                    lemma_expanded_stays(&before_forward, &self.forward, k);
                }
            }
            assert forall|k: int| 0 <= k < self.forward.nodes@.len() implies !self.backward.visited().contains(
            #[trigger] self.forward.word(k)) by {
                if k < before_forward.nodes@.len() {
                    assert(self.forward.nodes@[k] == before_forward.nodes@[k]);
                    assert(self.forward.word(k) == before_forward.word(k));
                    if before_forward.next == 0 {
                        if k > 0 {
                            assert(before_forward.node_ok(k));
                        }
                    }
                }
            }
        }
        let ghost before_backward = self.backward;
        let met_backward = self.backward.expand_next(&self.forward);
        match met_backward {
            Some(m) => {
                assert(self.backward.node_ok(m as int));
                return SearchState::Met(self.backward.nodes[m].word.clone());
            },
            None => {},
        }
        proof {
            assert forall|k: int| 0 <= k < self.backward.next implies #[trigger] self.backward.expanded(
                k,
            ) by {
                if k < before_backward.next {
                    assert(before_backward.expanded(k));
                    lemma_expanded_stays(&before_backward, &self.backward, k);
                }
            }
            assert forall|k: int| 0 <= k < self.forward.nodes@.len() implies !self.backward.visited().contains(
            #[trigger] self.forward.word(k)) by {
                let w = self.forward.word(k);
                assert(self.forward.node_ok(k));
                if self.backward.index@.contains_key(w) {
                    let place = self.backward.index@[w] as int;
                    assert(self.backward.word(place) == w);
                    if place < before_backward.nodes@.len() {
                        assert(self.backward.nodes@[place] == before_backward.nodes@[place]);
                        assert(before_backward.node_ok(place));
                    }
                }
            }
            assert(self.backward.nodes@[0] == before_backward.nodes@[0]);
            assert(self.forward.nodes@[0] == before_forward.nodes@[0]);
        }
        SearchState::Running
    }
}

/// A tree in which no word has been expanded holds its root alone.
pub proof fn lemma_unexpanded_tree_is_root(tree: &SearchTree)
    requires
        tree.wf(),
        tree.next == 0,
    ensures
        tree.nodes@.len() == 1,
{
    if tree.nodes@.len() > 1 {
        assert(tree.node_ok(1));
    }
}

/// Every word of `tree` but the one at `place` is unknown to `other`.
pub open spec fn alone_at(tree: &SearchTree, place: int, other: Set<Seq<char>>) -> bool {
    forall|k: int|
        0 <= k < tree.nodes@.len() && k != place ==> !other.contains(#[trigger] tree.word(k))
}

/// Where the forward tree met the backward tree at a newly found word, that word is the
/// only one of the forward tree that the backward tree knows.
pub proof fn lemma_forward_meeting(
    before: &BidirectionalSearch,
    forward: &SearchTree,
    m: usize,
)
    requires
        before.wf(),
        forward.expansion_of(&before.forward, before.backward.visited(), Some(m)),
        m >= before.forward.nodes@.len(),
    ensures
        alone_at(forward, m as int, before.backward.visited()),
{
    lemma_never_met_before(before);
    assert forall|k: int| 0 <= k < forward.nodes@.len() && k != m implies !before.backward.visited().contains(
    #[trigger] forward.word(k)) by {
        if k < before.forward.nodes@.len() {
            assert(forward.nodes@[k] == before.forward.nodes@[k]);
            assert(forward.word(k) == before.forward.word(k));
        }
    }
}

/// Where the backward tree met the grown forward tree, the meeting word is the only one of
/// the backward tree that the forward tree knows.
pub proof fn lemma_backward_meeting(
    before: &BidirectionalSearch,
    forward: &SearchTree,
    backward: &SearchTree,
    m: usize,
)
    requires
        before.wf(),
        forward.wf(),
        forward.expansion_of(&before.forward, before.backward.visited(), None),
        backward.expansion_of(&before.backward, forward.visited(), Some(m)),
    ensures
        alone_at(backward, m as int, forward.visited()),
{
    lemma_never_met_before(before);
    assert forall|k: int| 0 <= k < forward.nodes@.len() implies !before.backward.visited().contains(
    #[trigger] forward.word(k)) by {
        if k < before.forward.nodes@.len() {
            assert(forward.nodes@[k] == before.forward.nodes@[k]);
            assert(forward.word(k) == before.forward.word(k));
        }
    }
    assert forall|k: int| 0 <= k < before.backward.nodes@.len() implies !forward.visited().contains(
    #[trigger] before.backward.word(k)) by {
        assert(before.backward.node_ok(k));
        let w = before.backward.word(k);
        if forward.visited().contains(w) {
            let e = forward.index@[w] as int;
            assert(forward.word(e) == w);
        }
    }
    assert(m >= before.backward.nodes@.len());
    assert forall|k: int| 0 <= k < backward.nodes@.len() && k != m implies !forward.visited().contains(
    #[trigger] backward.word(k)) by {
        if k < before.backward.nodes@.len() {
            assert(backward.nodes@[k] == before.backward.nodes@[k]);
            assert(backward.word(k) == before.backward.word(k));
        }
    }
}

/// If the meeting word is the only word of one tree that the other knows, the path
/// through it visits no word twice.
pub proof fn lemma_path_through_is_simple(
    forward: &SearchTree,
    backward: &SearchTree,
    word: Seq<char>,
)
    requires
        forward.wf(),
        backward.wf(),
        forward.visited().contains(word),
        backward.visited().contains(word),
        alone_at(forward, forward.index@[word] as int, backward.visited()) || alone_at(
            backward,
            backward.index@[word] as int,
            forward.visited(),
        ),
    ensures
        (forward.chain(forward.index@[word] as int).reverse() + backward.chain(
            backward.index@[word] as int,
        ).skip(1)).no_duplicates(),
{
    let f = forward.index@[word] as int;
    let b = backward.index@[word] as int;
    let up = forward.chain(f);
    let first = up.reverse();
    let second = backward.chain(b);
    let p = first + second.skip(1);
    lemma_chain_is_simple(forward, f);
    lemma_chain_is_simple(backward, b);
    let fp = chain_places(forward, f);
    let bp = chain_places(backward, b);
    let n = first.len() as int;
    assert forall|i: int, j: int| 0 <= i < p.len() && 0 <= j < p.len() && i != j implies p[i]
        != p[j] by {
        if i < n && j < n {
            assert(p[i] == up[n - 1 - i] && p[j] == up[n - 1 - j]);
        } else if i >= n && j >= n {
            assert(p[i] == second[i - n + 1] && p[j] == second[j - n + 1]);
        } else {
            let x = if i < n {
                i
            } else {
                j
            };
            let y = if i < n {
                j
            } else {
                i
            };
            let tx = n - 1 - x;
            let ty = y - n + 1;
            assert(p[x] == up[tx] && p[y] == second[ty]);
            let kx = fp[tx];
            let ky = bp[ty];
            assert(up[tx] == forward.word(kx));
            assert(second[ty] == backward.word(ky));
            assert(forward.node_ok(kx));
            assert(backward.node_ok(ky));
            assert(backward.node_ok(b));
            assert(ky < b);
            if forward.word(kx) == backward.word(ky) {
                if alone_at(forward, f, backward.visited()) {
                    if kx == f {
                        assert(forward.word(f) == word);
                        assert(backward.word(b) == word);
                    }
                }
            }
        }
    }
}

/// When the trees have met after a round, the meeting word is the only word that both
/// hold, so the path through it visits no word twice.
pub proof fn lemma_met_path_is_simple(
    before: &BidirectionalSearch,
    after: &BidirectionalSearch,
    state: SearchState,
)
    requires
        before.wf(),
        after.forward.wf(),
        after.backward.wf(),
        after.round_of(before, state),
        state is Met,
        after.forward.visited().contains(state->Met_0@),
        after.backward.visited().contains(state->Met_0@),
    ensures
        after.path_through(state->Met_0@).no_duplicates(),
{
    let word = state->Met_0@;
    let f = after.forward.index@[word] as int;
    let b = after.backward.index@[word] as int;
    if exists|m: usize|
        {
            &&& #[trigger] after.forward.expansion_of(
                &before.forward,
                before.backward.visited(),
                Some(m),
            )
            &&& after.backward == before.backward
            &&& word == after.forward.word(m as int)
        } {
        let m = choose|m: usize|
            {
                &&& #[trigger] after.forward.expansion_of(
                    &before.forward,
                    before.backward.visited(),
                    Some(m),
                )
                &&& after.backward == before.backward
                &&& word == after.forward.word(m as int)
            };
        assert(after.forward.node_ok(m as int));
        if m < before.forward.nodes@.len() {
            lemma_never_met_before(before);
            assert(after.forward.nodes@.len() == 1 && after.backward.nodes@.len() == 1);
            assert(alone_at(&after.forward, f, after.backward.visited()));
        } else {
            lemma_forward_meeting(before, &after.forward, m);
        }
        lemma_path_through_is_simple(&after.forward, &after.backward, word);
    } else {
        let m = choose|m: usize|
            {
                &&& after.forward.expansion_of(&before.forward, before.backward.visited(), None)
                &&& #[trigger] after.backward.expansion_of(
                    &before.backward,
                    after.forward.visited(),
                    Some(m),
                )
                &&& word == after.backward.word(m as int)
            };
        assert(after.backward.node_ok(m as int));
        lemma_backward_meeting(before, &after.forward, &after.backward, m);
        lemma_path_through_is_simple(&after.forward, &after.backward, word);
    }
}

/// While a search runs and a round has passed, no word of the forward tree is known to the
/// backward tree; before the first round the trees hold their roots alone.
pub proof fn lemma_never_met_before(search: &BidirectionalSearch)
    requires
        search.wf(),
    ensures
        search.forward.next > 0 ==> search.separate(),
        search.forward.next == 0 ==> search.forward.nodes@.len() == 1
            && search.backward.nodes@.len() == 1,
{
    if search.forward.next == 0 {
        lemma_unexpanded_tree_is_root(&search.forward);
        lemma_unexpanded_tree_is_root(&search.backward);
    }
}

/// Where one swap turns the start into the goal, the first round finds it: the trees meet
/// at the goal, and the path through it is the start and then the goal.
pub proof fn lemma_one_swap_is_found(
    before: &BidirectionalSearch,
    after: &BidirectionalSearch,
    state: SearchState,
    a: Seq<char>,
    b: Seq<char>,
    policy: MismatchPolicy,
)
    requires
        before.starts(a, b, policy),
        after.forward.wf(),
        after.backward.wf(),
        after.round_of(before, state),
        swap_step(a, b),
    ensures
        state is Met,
        state->Met_0@ == b,
        after.path_through(b) == seq![a, b],
{
    let fw = &after.forward;
    let (i, j) = choose|i: int, j: int|
        0 <= i < j < a.len() && a[i] != a[j] && b == #[trigger] swapped(a, i, j);
    assert(b[i] != a[i]);
    assert(before.forward.node_ok(0));
    assert(before.backward.node_ok(0));
    let sw = before.forward.nodes@[0].swappables@;
    lemma_mismatches(a, b);
    assert(sw.contains(i as usize));
    assert(sw.contains(j as usize));
    let x = choose|x: int| 0 <= x < sw.len() && sw[x] == i as usize;
    let y = choose|y: int| 0 <= y < sw.len() && sw[y] == j as usize;
    if y <= x {
        if y < x {
            assert(sw[y] < sw[x]);
        }
    }
    let known = before.forward.visited();
    lemma_found_holds_tried(a, sw, known, x, y, sw.len() as int, sw.len() as int + 1);
    let all = found_by_all(a, sw, known);
    assert(!known.contains(b)) by {
        if known.contains(b) {
            assert(before.forward.word(before.forward.index@[b] as int) == b);
        }
    }
    assert(all.contains(b));
    let t = choose|t: int| 0 <= t < all.len() && all[t] == b;
    let other = before.backward.visited();
    assert forall|w: Seq<char>| other.contains(w) implies w == b by {
        assert(before.backward.word(before.backward.index@[w] as int) == w);
    }
    assert(other.contains(b));
    // Without a meeting the forward tree would hold the goal without noticing.
    if fw.expansion_of(&before.forward, other, None) {
        assert(fw.words_from(1)[t] == fw.word(1 + t));
        assert(!other.contains(fw.word(1 + t)));
        assert(false);
    }
    let m = choose|m: usize|
        {
            &&& #[trigger] fw.expansion_of(&before.forward, other, Some(m))
            &&& after.backward == before.backward
            &&& state->Met_0@ == fw.word(m as int)
        };
    assert(m >= 1);
    assert(fw.word(m as int) == b);
    assert(fw.node_ok(m as int));
    assert(fw.node_ok(0));
    assert(fw.nodes@[0] == before.forward.nodes@[0]);
    assert(fw.nodes@[m as int].parent == Some(0usize));
    assert(fw.chain(0) =~= seq![a]);
    assert(fw.chain(m as int) =~= seq![b, a]);
    assert(after.backward.chain(0) =~= seq![b]);
    assert(fw.chain(m as int).reverse() =~= seq![a, b]);
    assert(after.path_through(b) =~= seq![a, b]);
}

/// A word found from `w` by its positions that differ from `target` is one swap step away
/// from `w`, if `w` itself was known.
pub proof fn lemma_found_is_one_step_away(
    w: Seq<char>,
    target: Seq<char>,
    known: Set<Seq<char>>,
    t: int,
)
    requires
        w.len() == target.len(),
        w.len() <= usize::MAX,
        known.contains(w),
        0 <= t < found_by_all(w, mismatches(w, target), known).len(),
    ensures
        swap_step(w, found_by_all(w, mismatches(w, target), known)[t]),
{
    let sw = mismatches(w, target);
    let found = found_by_all(w, sw, known)[t];
    lemma_found_are_neighbours(w, sw, known, sw.len() as int, sw.len() as int + 1, t);
    lemma_mismatches(w, target);
    let (x, y) = choose|x: int, y: int|
        0 <= x < y < sw.len() && found == #[trigger] swapped(w, sw[x] as int, sw[y] as int);
    let i = sw[x] as int;
    let j = sw[y] as int;
    assert(i < j);
    if w[i] == w[j] {
        assert(swapped(w, i, j) =~= w);
    }
    assert(found == swapped(w, i, j));
}

/// A word that is one restricted step away from `w` is known or found from `w`.
pub proof fn lemma_restricted_step_is_found(
    w: Seq<char>,
    to: Seq<char>,
    target: Seq<char>,
    known: Set<Seq<char>>,
)
    requires
        w.len() == target.len(),
        w.len() <= usize::MAX,
        restricted_step(w, to, target),
    ensures
        known.contains(to) || found_by_all(w, mismatches(w, target), known).contains(to),
{
    let sw = mismatches(w, target);
    let (i, j) = choose|i: int, j: int|
        0 <= i < j < w.len() && w[i] != target[i] && w[j] != target[j] && w[i] != w[j] && to
            == #[trigger] swapped(w, i, j);
    lemma_mismatches(w, target);
    assert(sw.contains(i as usize));
    assert(sw.contains(j as usize));
    let x = choose|x: int| 0 <= x < sw.len() && sw[x] == i as usize;
    let y = choose|y: int| 0 <= y < sw.len() && sw[y] == j as usize;
    if y <= x {
        if y < x {
            assert(sw[y] < sw[x]);
        }
    }
    lemma_found_holds_tried(w, sw, known, x, y, sw.len() as int, sw.len() as int + 1);
}

/// Where two swaps turn the start into the goal and fewer do not, the first round finds a
/// word between them: the trees meet, and the path through the meeting word has three
/// words.
pub proof fn lemma_two_swaps_are_found(
    before: &BidirectionalSearch,
    after: &BidirectionalSearch,
    state: SearchState,
    a: Seq<char>,
    b: Seq<char>,
    policy: MismatchPolicy,
)
    requires
        before.starts(a, b, policy),
        after.forward.wf(),
        after.backward.wf(),
        after.round_of(before, state),
        two_swaps_apart(a, b),
    ensures
        state is Met,
        after.path_through(state->Met_0@).len() == 3,
{
    let fw = &after.forward;
    let bw = &after.backward;
    let middle = choose|x: Seq<char>| swap_step(a, x) && #[trigger] swap_step(x, b);
    lemma_middle_is_restricted(a, middle, b);
    assert(before.forward.node_ok(0));
    assert(before.backward.node_ok(0));
    let alone_a = before.forward.visited();
    let alone_b = before.backward.visited();
    assert forall|w: Seq<char>| alone_a.contains(w) implies w == a by {
        assert(before.forward.word(before.forward.index@[w] as int) == w);
    }
    assert forall|w: Seq<char>| alone_b.contains(w) implies w == b by {
        assert(before.backward.word(before.backward.index@[w] as int) == w);
    }
    assert(alone_a.contains(a));
    assert(alone_b.contains(b));
    let from_a = found_by_all(a, mismatches(a, b), alone_a);
    let from_b = found_by_all(b, mismatches(b, a), alone_b);
    // The forward tree does not find the goal.
    if exists|m: usize| #[trigger] fw.expansion_of(&before.forward, alone_b, Some(m)) {
        let m = choose|m: usize| #[trigger] fw.expansion_of(&before.forward, alone_b, Some(m));
        assert(m >= 1);
        assert(fw.word(m as int) == b);
        assert(fw.words_from(1)[m - 1] == fw.word(m as int));
        assert(from_a.take(m as int)[m - 1] == from_a[m - 1]);
        lemma_found_is_one_step_away(a, b, alone_a, m - 1);
        assert(false);
    }
    assert(fw.expansion_of(&before.forward, alone_b, None));
    assert(fw.words_from(1) == from_a);
    // What the forward tree holds is the start and the words one step away from it.
    assert forall|k: int| 1 <= k < fw.nodes@.len() implies swap_step(a, #[trigger] fw.word(k)) by {
        assert(fw.words_from(1)[k - 1] == fw.word(k));
        lemma_found_is_one_step_away(a, b, alone_a, k - 1);
    }
    assert(fw.nodes@[0] == before.forward.nodes@[0]);
    lemma_restricted_step_is_found(a, middle, b, alone_a);
    assert(from_a.contains(middle));
    let at = choose|at: int| 0 <= at < from_a.len() && from_a[at] == middle;
    assert(fw.words_from(1)[at] == fw.word(1 + at));
    assert(fw.node_ok(1 + at));
    assert(fw.visited().contains(middle));
    // The backward tree finds the word in the middle, or meets before.
    lemma_restricted_step_is_found(b, middle, a, alone_b);
    assert(from_b.contains(middle));
    let bt = choose|bt: int| 0 <= bt < from_b.len() && from_b[bt] == middle;
    if bw.expansion_of(&before.backward, fw.visited(), None) {
        assert(bw.words_from(1)[bt] == bw.word(1 + bt));
        assert(!fw.visited().contains(bw.word(1 + bt)));
        assert(false);
    }
    let m = choose|m: usize|
        {
            &&& fw.expansion_of(&before.forward, alone_b, None)
            &&& #[trigger] bw.expansion_of(&before.backward, fw.visited(), Some(m))
            &&& state->Met_0@ == bw.word(m as int)
        };
    let word = bw.word(m as int);
    assert(fw.visited().contains(word));
    let f = fw.index@[word] as int;
    assert(fw.word(f) == word);
    if m == 0 {
        assert(word == b);
        if f >= 1 {
            assert(swap_step(a, fw.word(f)));
        }
        assert(false);
    }
    assert(bw.words_from(1)[m - 1] == bw.word(m as int));
    assert(from_b.take(m as int)[m - 1] == from_b[m - 1]);
    lemma_found_is_one_step_away(b, a, alone_b, m - 1);
    assert(swap_step(b, word));
    if f == 0 {
        let (i, j) = choose|i: int, j: int|
            0 <= i < j < b.len() && b[i] != b[j] && word == #[trigger] swapped(b, i, j);
        lemma_swap_symmetric(b, i, j);
        assert(swapped(a, i, j) == b);
        assert(false);
    }
    assert(bw.nodes@[0] == before.backward.nodes@[0]);
    assert(fw.nodes@[f].parent == Some(0usize));
    assert(bw.nodes@[m as int].parent == Some(0usize));
    assert(bw.node_ok(m as int));
    assert(fw.chain(0) =~= seq![a]);
    assert(bw.chain(0) =~= seq![b]);
    assert(fw.chain(f) =~= seq![word, a]);
    assert(bw.chain(m as int) =~= seq![word, b]);
    assert(fw.chain(f).reverse() =~= seq![a, word]);
    assert(bw.chain(m as int).skip(1) =~= seq![b]);
    assert(after.path_through(word) =~= seq![a, word, b]);
}

/// A chain of swaps of at most three words is no shorter than what the search owes for
/// its two ends: one word where they are equal, two where one swap turns one into the
/// other, three where two swaps do and fewer do not.
pub proof fn lemma_short_paths_are_shortest(
    a: Seq<char>,
    b: Seq<char>,
    found: nat,
    other: Seq<Seq<char>>,
)
    requires
        a == b ==> found == 1,
        swap_step(a, b) ==> found == 2,
        two_swaps_apart(a, b) ==> found == 3,
        is_swap_path(other, a, b),
        other.len() <= 3,
    ensures
        found <= other.len(),
{
    if other.len() == 2 {
        assert(swap_step(other[0], other[1]));
    } else if other.len() == 3 {
        assert(swap_step(other[0], other[1]));
        assert(swap_step(other[1], other[2]));
        if a != b && !swap_step(a, b) {
            assert(two_swaps_apart(a, b));
        }
    }
    if swap_step(a, b) {
        let (i, j) = choose|i: int, j: int|
            0 <= i < j < a.len() && a[i] != a[j] && b == #[trigger] swapped(a, i, j);
        assert(b[i] != a[i]);
    }
}

/// `run` is a search from `a` to `b` round by round: it starts with the two roots, every
/// round but the last leaves the search running, and the last round ends it as `end` says,
/// with the trees met.
pub open spec fn is_run(
    run: Seq<BidirectionalSearch>,
    a: Seq<char>,
    b: Seq<char>,
    policy: MismatchPolicy,
    end: SearchState,
) -> bool {
    &&& run.len() >= 2
    &&& run[0].starts(a, b, policy)
    &&& forall|i: int|
        0 <= i < run.len() - 2 ==> (#[trigger] run[i + 1]).round_of(&run[i], SearchState::Running)
    &&& run[run.len() - 1].round_of(&run[run.len() - 2], end)
    &&& end is Met
}

/// The path through a word that both trees hold leads from the forward root to the
/// backward root by swap steps.
pub proof fn lemma_path_through_connects(after: &BidirectionalSearch, word: Seq<char>)
    requires
        after.forward.wf(),
        after.backward.wf(),
        after.forward.visited().contains(word),
        after.backward.visited().contains(word),
    ensures
        is_swap_path(after.path_through(word), after.forward.word(0), after.backward.word(0)),
{
    let f = after.forward.index@[word] as int;
    let b = after.backward.index@[word] as int;
    let first = after.forward.chain(f).reverse();
    let second = after.backward.chain(b);
    lemma_chain(&after.forward, f);
    lemma_chain(&after.backward, b);
    let p = after.path_through(word);
    assert(p == first + second.skip(1));
    assert forall|t: int| 0 <= t < p.len() - 1 implies swap_step(#[trigger] p[t], p[t + 1]) by {
        if t < first.len() - 1 {
            assert(p[t] == first[t]);
            assert(p[t + 1] == first[t + 1]);
        } else if t == first.len() - 1 {
            assert(p[t] == second[0]);
            assert(p[t + 1] == second[1]);
        } else {
            assert(p[t] == second[t - first.len() + 1]);
            assert(p[t + 1] == second[t - first.len() + 2]);
        }
    }
    if second.len() == 1 {
        assert(p[p.len() - 1] == first[first.len() - 1]);
    } else {
        assert(p[p.len() - 1] == second[second.len() - 1]);
    }
    assert(p[0] == first[0]);
}

/// Where the start is the goal, the first round finds it: the trees meet at once, and the
/// path is that one word.
pub proof fn lemma_no_swap_is_found(
    before: &BidirectionalSearch,
    after: &BidirectionalSearch,
    state: SearchState,
    a: Seq<char>,
    policy: MismatchPolicy,
)
    requires
        before.starts(a, a, policy),
        after.forward.wf(),
        after.backward.wf(),
        after.round_of(before, state),
    ensures
        state is Met,
        state->Met_0@ == a,
        after.path_through(a) == seq![a],
{
    let fw = &after.forward;
    let other = before.backward.visited();
    assert(before.forward.node_ok(0));
    assert(before.backward.node_ok(0));
    assert(other.contains(a));
    let m = choose|m: usize|
        {
            &&& #[trigger] fw.expansion_of(&before.forward, other, Some(m))
            &&& after.backward == before.backward
            &&& state->Met_0@ == fw.word(m as int)
        };
    assert(m == 0);
    assert(fw.node_ok(0));
    assert(after.backward.node_ok(0));
    assert(fw.chain(0) =~= seq![a]);
    assert(after.backward.chain(0) =~= seq![a]);
    assert(fw.chain(0).reverse() =~= seq![a]);
    assert(after.path_through(a) =~= seq![a]);
}

/// Searches for a chain of swaps that turns `word_a` into `word_b`, growing one tree from
/// each word in turn until a word has been discovered from both sides.
///
/// The result starts with `word_a` and ends with `word_b`, each of its words results from
/// the one before by exchanging two different symbols, and no word stands in it twice.
/// Where no swap, one swap or two swaps turn `word_a` into `word_b`, the result is as short
/// as a chain of swaps can be: one word, two or three.  A longer result need not be the
/// shortest chain where symbols repeat, since the trees take turns word by word and meet
/// at the first word that both hold.
/// Anagrams are always connected, so the result is never empty.  It is the path through
/// the meeting word of the search as it runs round by round.
pub fn search_with_policy(word_a: &str, word_b: &str, policy: MismatchPolicy) -> (path: Vec<String>)
    requires
        is_anagram(word_a@, word_b@),
    ensures
        is_swap_path(words_of(path@), word_a@, word_b@),
        word_a@ == word_b@ ==> path@.len() == 1,
        swap_step(word_a@, word_b@) ==> path@.len() == 2,
        two_swaps_apart(word_a@, word_b@) ==> path@.len() == 3,
        forall|other: Seq<Seq<char>>|
            other.len() <= 3 && #[trigger] is_swap_path(other, word_a@, word_b@) ==> path@.len()
                <= other.len(),
        words_of(path@).no_duplicates(),
        exists|run: Seq<BidirectionalSearch>, end: SearchState| #[trigger]
            is_run(run, word_a@, word_b@, policy, end) && words_of(path@) == run[run.len()
                - 1].path_through(end->Met_0@),
{
    let mut search = BidirectionalSearch::new(word_a, word_b, policy);
    let ghost bound = word_bound(word_b@.len(), word_b@.len());
    let ghost mut run: Seq<BidirectionalSearch> = seq![search];
    proof {
        lemma_tree_bounded(&search.forward);
    }
    loop
        invariant
            run.len() >= 1,
            run[0].starts(word_a@, word_b@, policy),
            run[run.len() - 1] == search,
            forall|i: int|
                0 <= i < run.len() - 1 ==> (#[trigger] run[i + 1]).round_of(
                    &run[i],
                    SearchState::Running,
                ),
            search.wf(),
            search.forward.word(0) == word_a@,
            search.backward.word(0) == word_b@,
            search.forward.next <= bound,
            bound == word_bound(word_b@.len(), word_b@.len()),
            (word_a@ == word_b@ || swap_step(word_a@, word_b@) || two_swaps_apart(
                word_a@,
                word_b@,
            )) ==> search.starts(word_a@, word_b@, policy),
        decreases bound - search.forward.next,
    {
        let ghost before = search;
        let state = search.advance();
        proof {
            assert(search.forward.nodes@[0] == before.forward.nodes@[0]);
            assert(search.backward.nodes@[0] == before.backward.nodes@[0]);
            if swap_step(word_a@, word_b@) {
                lemma_one_swap_is_found(&before, &search, state, word_a@, word_b@, policy);
            }
            if word_a@ == word_b@ {
                lemma_no_swap_is_found(&before, &search, state, word_a@, policy);
            }
            if two_swaps_apart(word_a@, word_b@) {
                lemma_two_swaps_are_found(&before, &search, state, word_a@, word_b@, policy);
            }
        }
        match state {
            SearchState::Running => {
                proof {
                    lemma_tree_bounded(&search.forward);
                    let longer = run.push(search);
                    assert forall|i: int| 0 <= i < longer.len() - 1 implies (
                    #[trigger] longer[i + 1]).round_of(&longer[i], SearchState::Running) by {
                        if i < run.len() - 1 {
                            assert(run[i + 1].round_of(&run[i], SearchState::Running));
                        }
                    }
                    run = longer;
                }
            },
            SearchState::Met(word) => {
                let path = path_from_both_parent_mapping(&search.forward, &search.backward, &word);
                proof {
                    let whole = run.push(search);
                    let end = SearchState::Met(word);
                    assert forall|i: int| 0 <= i < whole.len() - 2 implies (
                    #[trigger] whole[i + 1]).round_of(&whole[i], SearchState::Running) by {
                        assert(run[i + 1].round_of(&run[i], SearchState::Running));
                    }
                    assert(whole[whole.len() - 2] == before);
                    assert(is_run(whole, word_a@, word_b@, policy, end));
                    assert(words_of(path@) == whole[whole.len() - 1].path_through(end->Met_0@));
                    lemma_met_path_is_simple(&before, &search, end);
                    lemma_path_through_connects(&search, word@);
                    assert forall|other: Seq<Seq<char>>|
                        other.len() <= 3 && #[trigger] is_swap_path(
                            other,
                            word_a@,
                            word_b@,
                        ) implies path@.len() <= other.len() by {
                        lemma_short_paths_are_shortest(word_a@, word_b@, path@.len(), other);
                    }
                }
                return path;
            },
            SearchState::Exhausted => {
                return Vec::new();
            },
        }
    }
}

/// Finds a chain of swaps that turns `word_a` into `word_b`.
///
/// Every position of a newly discovered word is compared with the target.
pub fn find_shortest_path_bewteen_words(word_a: &str, word_b: &str) -> (path: Vec<String>)
    requires
        is_anagram(word_a@, word_b@),
    ensures
        is_swap_path(words_of(path@), word_a@, word_b@),
        word_a@ == word_b@ ==> path@.len() == 1,
        swap_step(word_a@, word_b@) ==> path@.len() == 2,
        two_swaps_apart(word_a@, word_b@) ==> path@.len() == 3,
        forall|other: Seq<Seq<char>>|
            other.len() <= 3 && #[trigger] is_swap_path(other, word_a@, word_b@) ==> path@.len()
                <= other.len(),
        words_of(path@).no_duplicates(),
        exists|run: Seq<BidirectionalSearch>, end: SearchState| #[trigger]
            is_run(run, word_a@, word_b@, MismatchPolicy::FullScan, end) && words_of(path@)
                == run[run.len() - 1].path_through(end->Met_0@),
{
    search_with_policy(word_a, word_b, MismatchPolicy::FullScan)
}

} // verus!
