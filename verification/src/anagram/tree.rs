use crate::anagram::theory::{
    is_anagram, lemma_anagram_transitive, lemma_mismatches, lemma_narrowing_is_full_scan,
    lemma_swap_is_anagram, swap_step,
};
use crate::anagram::words::{get_swappable_indexes, mismatches, new_string_from_swap, swapped};
use vstd::hash_map::StringHashMap;
use vstd::prelude::*;

verus! {

/// How the swappable positions of a newly found word are computed.
#[derive(Clone, Copy, Debug, PartialEq, Eq, Structural)]
pub enum MismatchPolicy {
    /// Every position of the new word is compared with the target.
    FullScan,
    /// Only the swappable positions of the word it was found from are compared again.
    Narrowing,
}

/// One discovered word of a search tree.
pub struct SearchNode {
    /// The word itself.
    pub word: String,
    /// The place, in discovery order, of the word this one was found from; none for the root.
    pub parent: Option<usize>,
    /// The positions at which the word differs from the target, in increasing order.
    pub swappables: Vec<usize>,
}

/// A search tree grown from one root towards a target word.
///
/// The nodes stand in discovery order.  Those from `next` on form the frontier, first in
/// first out.  `index` maps every discovered word to its place among the nodes, so its keys
/// are the visited set, and together with the nodes' parents it is the parent map.
pub struct SearchTree {
    pub nodes: Vec<SearchNode>,
    pub index: StringHashMap<usize>,
    pub next: usize,
    pub target: String,
    pub policy: MismatchPolicy,
}

/// The words newly found when the pairs of swappable positions that come before `(a, b)`
/// are tried in increasing lexicographic order: the word that a pair gives is found if it
/// is neither known nor found by an earlier pair.
pub open spec fn found_before(
    w: Seq<char>,
    sw: Seq<usize>,
    known: Set<Seq<char>>,
    a: int,
    b: int,
) -> Seq<Seq<char>>
    decreases a, b,
{
    if a < 0 || b < 0 || (a == 0 && b <= 1) {
        Seq::<Seq<char>>::empty()
    } else if b > sw.len() {
        found_before(w, sw, known, a, sw.len() as int)
    } else if b <= a + 1 {
        found_before(w, sw, known, a - 1, sw.len() as int)
    } else {
        let earlier = found_before(w, sw, known, a, b - 1);
        let neighbour = swapped(w, sw[a] as int, sw[b - 1] as int);
        if known.contains(neighbour) || earlier.contains(neighbour) {
            earlier
        } else {
            earlier.push(neighbour)
        }
    }
}

/// All the words newly found when every pair of swappable positions is tried.
pub open spec fn found_by_all(w: Seq<char>, sw: Seq<usize>, known: Set<Seq<char>>) -> Seq<
    Seq<char>,
> {
    found_before(w, sw, known, sw.len() as int, sw.len() as int + 1)
}

/// What is found grows as more pairs are tried.
pub proof fn lemma_found_grows(
    w: Seq<char>,
    sw: Seq<usize>,
    known: Set<Seq<char>>,
    a: int,
    b: int,
    a2: int,
    b2: int,
)
    requires
        0 <= a,
        0 <= b <= sw.len(),
        0 <= b2,
        a < a2 || (a == a2 && b <= b2),
    ensures
        found_before(w, sw, known, a, b).len() <= found_before(w, sw, known, a2, b2).len(),
        found_before(w, sw, known, a2, b2).take(found_before(w, sw, known, a, b).len() as int)
            == found_before(w, sw, known, a, b),
    decreases a2, b2,
{
    let small = found_before(w, sw, known, a, b);
    let large = found_before(w, sw, known, a2, b2);
    if a == a2 && b == b2 {
        assert(large.take(small.len() as int) =~= small);
    } else if a2 == 0 && b2 <= 1 {
        assert(large.take(small.len() as int) =~= small);
    } else if b2 > sw.len() {
        lemma_found_grows(w, sw, known, a, b, a2, sw.len() as int);
    } else if b2 <= a2 + 1 {
        if a < a2 {
            lemma_found_grows(w, sw, known, a, b, a2 - 1, sw.len() as int);
        } else {
            assert(small == large);
            assert(large.take(small.len() as int) =~= small);
        }
    } else {
        lemma_found_grows(w, sw, known, a, b, a2, b2 - 1);
        let earlier = found_before(w, sw, known, a2, b2 - 1);
        assert(earlier.take(small.len() as int) == small);
        assert(large.take(small.len() as int) =~= earlier.take(small.len() as int));
    }
}

/// Once a pair has been tried, the word that it gives is known or found.
pub proof fn lemma_found_holds_tried(
    w: Seq<char>,
    sw: Seq<usize>,
    known: Set<Seq<char>>,
    a: int,
    b: int,
    a2: int,
    b2: int,
)
    requires
        0 <= a < b < sw.len(),
        0 <= b2,
        a < a2 || (a == a2 && b < b2),
    ensures
        known.contains(swapped(w, sw[a] as int, sw[b] as int)) || found_before(
            w,
            sw,
            known,
            a2,
            b2,
        ).contains(swapped(w, sw[a] as int, sw[b] as int)),
{
    let neighbour = swapped(w, sw[a] as int, sw[b] as int);
    let earlier = found_before(w, sw, known, a, b);
    let here = found_before(w, sw, known, a, b + 1);
    if !known.contains(neighbour) {
        if earlier.contains(neighbour) {
            assert(here == earlier);
        } else {
            assert(here == earlier.push(neighbour));
            assert(here[earlier.len() as int] == neighbour);
        }
        let t = choose|t: int| 0 <= t < here.len() && here[t] == neighbour;
        lemma_found_grows(w, sw, known, a, b + 1, a2, b2);
        let all = found_before(w, sw, known, a2, b2);
        assert(all.take(here.len() as int)[t] == all[t]);
    }
}

/// Every word that is found results from a pair of the swappable positions, and was not
/// known.
pub proof fn lemma_found_are_neighbours(
    w: Seq<char>,
    sw: Seq<usize>,
    known: Set<Seq<char>>,
    a: int,
    b: int,
    t: int,
)
    requires
        0 <= t < found_before(w, sw, known, a, b).len(),
    ensures
        !known.contains(found_before(w, sw, known, a, b)[t]),
        exists|x: int, y: int|
            0 <= x < y < sw.len() && found_before(w, sw, known, a, b)[t] == #[trigger] swapped(
                w,
                sw[x] as int,
                sw[y] as int,
            ),
    decreases a, b,
{
    if a < 0 || b < 0 || (a == 0 && b <= 1) {
    } else if b > sw.len() {
        lemma_found_are_neighbours(w, sw, known, a, sw.len() as int, t);
    } else if b <= a + 1 {
        lemma_found_are_neighbours(w, sw, known, a - 1, sw.len() as int, t);
    } else {
        let earlier = found_before(w, sw, known, a, b - 1);
        if t < earlier.len() {
            lemma_found_are_neighbours(w, sw, known, a, b - 1, t);
        } else {
            assert(found_before(w, sw, known, a, b)[t] == swapped(
                w,
                sw[a] as int,
                sw[b - 1] as int,
            ));
        }
    }
}

impl SearchTree {
    /// The word discovered as number `k`.
    pub open spec fn word(&self, k: int) -> Seq<char> {
        self.nodes@[k].word@
    }

    /// The words discovered so far.
    pub open spec fn visited(&self) -> Set<Seq<char>> {
        self.index@.dom()
    }

    /// The words discovered from number `from` on, in the order of their discovery.
    pub open spec fn words_from(&self, from: int) -> Seq<Seq<char>> {
        Seq::new((self.nodes@.len() - from) as nat, |k: int| self.word(from + k))
    }

    /// The words that await expansion, in the order in which they will be expanded.
    pub open spec fn frontier(&self) -> Seq<Seq<char>> {
        self.words_from(self.next as int)
    }

    /// The word from which `w` was discovered, or none for the root.
    pub open spec fn parent_of(&self, w: Seq<char>) -> Option<Seq<char>> {
        match self.nodes@[self.index@[w] as int].parent {
            Some(p) => Some(self.word(p as int)),
            None => None,
        }
    }

    /// What holds of the node discovered as number `k`.
    pub open spec fn node_ok(&self, k: int) -> bool {
        &&& self.word(k).len() == self.target@.len()
        &&& is_anagram(self.word(k), self.target@)
        &&& self.nodes@[k].swappables@ == mismatches(self.word(k), self.target@)
        &&& self.index@.contains_key(self.word(k))
        &&& self.index@[self.word(k)] == k
        &&& k == 0 ==> self.nodes@[k].parent is None
        &&& k > 0 ==> (self.nodes@[k].parent matches Some(p) && p < k && p < self.next && swap_step(
            self.word(p as int),
            self.word(k),
        ))
    }

    /// The tree is well formed: the root has no parent, every other word is one swap away
    /// from its parent, which was discovered before it and has left the frontier, every word
    /// is an anagram of the target and carries its differing positions, and the index names
    /// each word's place.
    pub open spec fn wf(&self) -> bool {
        &&& self.nodes@.len() >= 1
        &&& self.next <= self.nodes@.len()
        &&& self.target@.len() <= usize::MAX
        &&& forall|k: int| 0 <= k < self.nodes@.len() ==> #[trigger] self.node_ok(k)
        &&& forall|w: Seq<char>| #[trigger]
            self.index@.contains_key(w) ==> self.index@[w] < self.nodes@.len() && self.word(
                self.index@[w] as int,
            ) == w
    }

    /// Every neighbour of word number `k`, by a swap of two of its differing positions, has
    /// been discovered.
    pub open spec fn expanded(&self, k: int) -> bool {
        forall|a: int, b: int|
            0 <= a < b < self.nodes@[k].swappables@.len() ==> self.index@.contains_key(
                #[trigger] swapped(
                    self.word(k),
                    self.nodes@[k].swappables@[a] as int,
                    self.nodes@[k].swappables@[b] as int,
                ),
            )
    }

    /// The neighbours of word number `k` by the pairs that come before `(a0, b0)` have been
    /// discovered.
    pub open spec fn expanded_before(&self, k: int, a0: int, b0: int) -> bool {
        forall|a: int, b: int|
            0 <= a < b < self.nodes@[k].swappables@.len() && (a < a0 || (a == a0 && b < b0))
                ==> self.index@.contains_key(
                #[trigger] swapped(
                    self.word(k),
                    self.nodes@[k].swappables@[a] as int,
                    self.nodes@[k].swappables@[b] as int,
                ),
            )
    }

    /// `self` holds all that `before` held, in the same places, and searches for the same
    /// target in the same way.
    pub open spec fn extends(&self, before: &SearchTree) -> bool {
        &&& before.nodes@.len() <= self.nodes@.len()
        &&& forall|k: int| 0 <= k < before.nodes@.len() ==> self.nodes@[k] == before.nodes@[k]
        &&& forall|w: Seq<char>|
            before.index@.contains_key(w) ==> #[trigger] self.index@.contains_key(w)
        &&& self.target@ == before.target@
        &&& self.policy == before.policy
    }

    /// The words from number `k` back to the root: `k` first, the root last.
    pub open spec fn chain(&self, k: int) -> Seq<Seq<char>>
        decreases k,
    {
        if k <= 0 {
            seq![self.word(0)]
        } else {
            match self.nodes@[k].parent {
                Some(p) => if p < k {
                    seq![self.word(k)] + self.chain(p as int)
                } else {
                    seq![self.word(k)]
                },
                None => seq![self.word(k)],
            }
        }
    }

    /// A tree that holds its root alone, which awaits expansion.
    pub fn new(root: &str, target: &str, policy: MismatchPolicy) -> (tree: Self)
        requires
            is_anagram(root@, target@),
        ensures
            tree.wf(),
            tree.nodes@.len() == 1,
            tree.next == 0,
            tree.word(0) == root@,
            tree.target@ == target@,
            tree.policy == policy,
            tree.visited() == set![root@],
    {
        let length = target.unicode_len();
        assert(target@.len() == length);
        let swappables = get_swappable_indexes(root, target, None);
        let mut index: StringHashMap<usize> = StringHashMap::new();
        index.insert(root.to_owned(), 0);
        let mut nodes: Vec<SearchNode> = Vec::new();
        nodes.push(SearchNode { word: root.to_owned(), parent: None, swappables });
        let tree = SearchTree { nodes, index, next: 0, target: target.to_owned(), policy };
        proof {
            assert(tree.node_ok(0));
            assert(tree.visited() =~= set![root@]);
        }
        tree
    }

    /// Whether a word awaits expansion.
    pub fn has_pending(&self) -> (pending: bool)
        ensures
            pending == (self.next < self.nodes@.len()),
    {
        self.next < self.nodes.len()
    }

    /// Whether `word` has been discovered.
    pub fn contains(&self, word: &str) -> (found: bool)
        ensures
            found == self.visited().contains(word@),
    {
        self.index.contains_key(word)
    }

    /// `self` is what the expansion of the next word of `before` gives, where `other` holds
    /// the words that the other tree has discovered and `met` is the place of the meeting
    /// word, if the trees met: the words newly found, up to the first that `other` holds, are
    /// added in the order in which they were found, each with the expanded word as parent.
    pub open spec fn expansion_of(
        &self,
        before: &SearchTree,
        other: Set<Seq<char>>,
        met: Option<usize>,
    ) -> bool {
        &&& self.extends(before)
        &&& self.next == before.next + 1
        &&& other.contains(before.word(before.next as int)) ==> met == Some(before.next)
            && self.nodes@ == before.nodes@ && self.index@ == before.index@
        &&& forall|k: int|
            before.nodes@.len() <= k < self.nodes@.len()
                ==> (#[trigger] self.nodes@[k]).parent == Some(before.next)
        &&& match met {
            Some(m) => {
                &&& m < self.nodes@.len()
                &&& other.contains(self.word(m as int))
                &&& m < before.nodes@.len() ==> m == before.next
                &&& forall|k: int|
                    before.nodes@.len() <= k < m ==> !other.contains(
                        #[trigger] self.word(k),
                    )
                &&& m >= before.nodes@.len() ==> m + 1 == self.nodes@.len()
                    && !other.contains(before.word(before.next as int))
                    && m + 1 - before.nodes@.len() <= found_by_all(
                    before.word(before.next as int),
                    before.nodes@[before.next as int].swappables@,
                    before.visited(),
                ).len() && self.words_from(before.nodes@.len() as int) == found_by_all(
                    before.word(before.next as int),
                    before.nodes@[before.next as int].swappables@,
                    before.visited(),
                ).take(m + 1 - before.nodes@.len())
            },
            None => {
                &&& self.expanded(before.next as int)
                &&& !other.contains(before.word(before.next as int))
                &&& forall|k: int|
                    before.nodes@.len() <= k < self.nodes@.len()
                        ==> !other.contains(#[trigger] self.word(k))
                &&& self.words_from(before.nodes@.len() as int) == found_by_all(
                    before.word(before.next as int),
                    before.nodes@[before.next as int].swappables@,
                    before.visited(),
                )
            },
        }
    }

    /// Every discovered word but the root was discovered from a discovered word that is one
    /// swap away, and the root from none.
    pub proof fn lemma_parent_is_one_swap_away(&self, w: Seq<char>)
        requires
            self.wf(),
            self.visited().contains(w),
        ensures
            match self.parent_of(w) {
                Some(p) => w != self.word(0) && self.visited().contains(p) && swap_step(p, w),
                None => w == self.word(0),
            },
    {
        let k = self.index@[w] as int;
        assert(self.node_ok(k));
        assert(self.node_ok(0));
        if k > 0 {
            let p = self.nodes@[k].parent->0 as int;
            assert(self.node_ok(p));
        }
    }

    /// The frontier is first in, first out: an expansion without meeting takes the first
    /// word off the frontier and puts the words newly found behind the others.
    pub proof fn lemma_expansion_is_fifo(&self, before: &SearchTree, other: Set<Seq<char>>)
        requires
            before.wf(),
            before.next < before.nodes@.len(),
            self.expansion_of(before, other, None),
        ensures
            before.frontier()[0] == before.word(before.next as int),
            self.frontier() == before.frontier().skip(1) + found_by_all(
                before.word(before.next as int),
                before.nodes@[before.next as int].swappables@,
                before.visited(),
            ),
    {
        let found = self.words_from(before.nodes@.len() as int);
        let left = before.frontier().skip(1);
        assert forall|k: int| 0 <= k < self.frontier().len() implies self.frontier()[k] == (left
            + found)[k] by {
            if k < left.len() {
                assert(self.nodes@[self.next + k] == before.nodes@[before.next + 1 + k]);
            } else {
                assert(found[k - left.len()] == self.word(before.nodes@.len() + k - left.len()));
            }
        }
        assert(self.frontier() =~= left + found);
    }

    /// Takes the next word off the frontier and expands it.
    ///
    /// If the word has been discovered by `other`, the trees have met there.  Otherwise every
    /// pair of its swappable positions is tried in increasing lexicographic order; a
    /// neighbour that has not been discovered yet is recorded with the expanded word as its
    /// parent and joins the frontier, and if `other` has discovered it too the trees have met
    /// there.  The result is the place of the meeting word in this tree, if the trees met.
    pub fn expand_next(&mut self, other: &SearchTree) -> (met: Option<usize>)
        requires
            old(self).wf(),
            old(self).next < old(self).nodes@.len(),
        ensures
            final(self).wf(),
            final(self).expansion_of(old(self), other.visited(), met),
    {
        let cur = self.next;
        let total = self.nodes.len();
        assert(cur < total);
        let ghost known = self.index@.dom();
        let ghost start = self.nodes@.len() as int;
        self.next = cur + 1;
        let word = self.nodes[cur].word.clone();
        proof {
            assert(old(self).node_ok(cur as int));
            assert forall|k: int| 0 <= k < self.nodes@.len() implies #[trigger] self.node_ok(
                k,
            ) by {
                assert(old(self).node_ok(k));
            }
        }
        if other.index.contains_key(word.as_str()) {
            return Some(cur);
        }
        let swappables = self.nodes[cur].swappables.clone();
        assert(swappables@ =~= self.nodes@[cur as int].swappables@);
        let count = swappables.len();
        proof {
            lemma_mismatches(word@, self.target@);
        }
        assert(self.words_from(start) =~= Seq::<Seq<char>>::empty());
        let mut a: usize = 0;
        while a < count
            invariant
                start == old(self).nodes@.len(),
                known == old(self).index@.dom(),
                swappables@ == old(self).nodes@[cur as int].swappables@,
                forall|x: Seq<char>|
                    self.index@.contains_key(x) <==> known.contains(x) || self.words_from(
                        start,
                    ).contains(x),
                self.words_from(start) == found_before(
                    word@,
                    swappables@,
                    known,
                    a as int,
                    a + 1,
                ),
                forall|k: int|
                    start <= k < self.nodes@.len() ==> (#[trigger] self.nodes@[k]).parent == Some(
                        cur,
                    ),
                self.wf(),
                self.extends(old(self)),
                self.next == cur + 1,
                cur == old(self).next,
                cur < old(self).nodes@.len(),
                word@ == self.word(cur as int),
                !other.visited().contains(word@),
                word@ == old(self).word(cur as int),
                swappables@ == self.nodes@[cur as int].swappables@,
                swappables@ == mismatches(word@, self.target@),
                count == swappables@.len(),
                a <= count,
                self.expanded_before(cur as int, a as int, 0),
                forall|k: int|
                    old(self).nodes@.len() <= k < self.nodes@.len() ==> !other.visited().contains(
                        #[trigger] self.word(k),
                    ),
            decreases count - a,
        {
            let mut b: usize = a + 1;
            while b < count
                invariant
                    start == old(self).nodes@.len(),
                    known == old(self).index@.dom(),
                    swappables@ == old(self).nodes@[cur as int].swappables@,
                    forall|x: Seq<char>|
                        self.index@.contains_key(x) <==> known.contains(x) || self.words_from(
                            start,
                        ).contains(x),
                    self.words_from(start) == found_before(
                        word@,
                        swappables@,
                        known,
                        a as int,
                        b as int,
                    ),
                    forall|k: int|
                        start <= k < self.nodes@.len() ==> (#[trigger] self.nodes@[k]).parent
                            == Some(cur),
                    self.wf(),
                    self.extends(old(self)),
                    self.next == cur + 1,
                    cur == old(self).next,
                    cur < old(self).nodes@.len(),
                    word@ == self.word(cur as int),
                    !other.visited().contains(word@),
                    word@ == old(self).word(cur as int),
                    swappables@ == self.nodes@[cur as int].swappables@,
                    swappables@ == mismatches(word@, self.target@),
                    count == swappables@.len(),
                    a < count,
                    a < b <= count,
                    self.expanded_before(cur as int, a as int, b as int),
                    forall|k: int|
                        old(self).nodes@.len() <= k < self.nodes@.len()
                            ==> !other.visited().contains(#[trigger] self.word(k)),
                decreases count - b,
            {
                let ghost before = *self;
                let i = swappables[a];
                let j = swappables[b];
                proof {
                    assert(self.node_ok(cur as int));
                    lemma_mismatches(word@, self.target@);
                }
                let candidate = new_string_from_swap(word.as_str(), i, j);
                let ghost earlier = self.words_from(start);
                if !self.index.contains_key(candidate.as_str()) {
                    let previous = match self.policy {
                        MismatchPolicy::FullScan => None,
                        MismatchPolicy::Narrowing => Some(swappables.clone()),
                    };
                    let fresh = get_swappable_indexes(
                        candidate.as_str(),
                        self.target.as_str(),
                        previous,
                    );
                    let place = self.nodes.len();
                    let hit = other.index.contains_key(candidate.as_str());
                    self.index.insert(candidate.clone(), place);
                    self.nodes.push(
                        SearchNode { word: candidate, parent: Some(cur), swappables: fresh },
                    );
                    proof {
                        let w = word@;
                        let c = swapped(w, i as int, j as int);
                        lemma_narrowing_is_full_scan(w, self.target@, i as int, j as int);
                        lemma_swap_is_anagram(w, i as int, j as int);
                        lemma_anagram_transitive(c, w, self.target@);
                        if w[i as int] == w[j as int] {
                            assert(c =~= w);
                        }
                        assert(swap_step(w, c));
                        assert(self.word(place as int) == c);
                        assert(self.words_from(start) =~= earlier.push(c)) by {
                            assert forall|e: int| 0 <= e < earlier.len() implies self.words_from(
                                start,
                            )[e] == earlier[e] by {
                                assert(self.nodes@[start + e] == before.nodes@[start + e]);
                            }
                        }
                        assert forall|x: Seq<char>| self.index@.contains_key(x) <==> known.contains(
                            x,
                        ) || self.words_from(start).contains(x) by {
                            if x == c {
                                assert(self.words_from(start)[earlier.len() as int] == c);
                            } else {
                                if earlier.contains(x) {
                                    let e = choose|e: int| 0 <= e < earlier.len() && earlier[e] == x;
                                    assert(self.words_from(start)[e] == x);
                                }
                                if self.words_from(start).contains(x) {
                                    let e = choose|e: int|
                                        0 <= e < self.words_from(start).len() && self.words_from(
                                            start,
                                        )[e] == x;
                                    assert(earlier[e] == x);
                                }
                            }
                        }
                        assert forall|k: int| start <= k < self.nodes@.len() implies (
                        #[trigger] self.nodes@[k]).parent == Some(cur) by {
                            if k < place {
                                assert(self.nodes@[k] == before.nodes@[k]);
                            }
                        }
                        lemma_found_grows(
                            word@,
                            swappables@,
                            known,
                            a as int,
                            b + 1,
                            count as int,
                            count + 1,
                        );
                        assert forall|k: int| 0 <= k < self.nodes@.len() implies #[trigger] self.node_ok(
                            k,
                        ) by {
                            if k < place {
                                assert(before.node_ok(k));
                                assert(self.nodes@[k] == before.nodes@[k]);
                                assert(self.word(k) != c);
                            }
                        }
                        assert forall|x: Seq<char>| #[trigger]
                            self.index@.contains_key(x) implies self.index@[x] < self.nodes@.len()
                            && self.word(self.index@[x] as int) == x by {
                            if x != c {
                                assert(before.index@.contains_key(x));
                            }
                        }
                    }
                    assert forall|k: int| old(self).nodes@.len() <= k < place
                        implies !other.visited().contains(#[trigger] self.word(k)) by {
                        assert(self.word(k) == before.word(k));
                    }
                    if hit {
                        return Some(place);
                    }
                    assert forall|k: int|
                        old(self).nodes@.len() <= k < self.nodes@.len()
                        implies !other.visited().contains(#[trigger] self.word(k)) by {
                        if k < place {
                            assert(self.word(k) == before.word(k));
                        }
                    }
                }
                b += 1;
            }
            proof {
                if a + 2 > count {
                    assert(found_before(word@, swappables@, known, a + 1, a + 2) == found_before(
                        word@,
                        swappables@,
                        known,
                        a + 1,
                        count as int,
                    ));
                }
                assert(found_before(word@, swappables@, known, a + 1, a + 2) == found_before(
                    word@,
                    swappables@,
                    known,
                    a as int,
                    count as int,
                ));
            }
            a += 1;
        }
        None
    }

    /// The place of `word` in discovery order, if it has been discovered.
    pub fn position(&self, word: &str) -> (place: Option<usize>)
        ensures
            match place {
                Some(k) => self.visited().contains(word@) && k == self.index@[word@],
                None => !self.visited().contains(word@),
            },
    {
        match self.index.get(word) {
            Some(k) => Some(*k),
            None => None,
        }
    }
}

} // verus!
