use vstd::hash_set::StringHashSet;
use vstd::prelude::*;

verus! {

/// A set of texts.  The texts stand in `items`, each once, in the order in which they came
/// in; `index` holds the same texts for quick lookup.
pub struct TextSet {
    pub items: Vec<String>,
    pub index: StringHashSet,
}

impl View for TextSet {
    type V = Set<Seq<char>>;

    /// The texts that the set holds.
    open spec fn view(&self) -> Set<Seq<char>> {
        self.index@
    }
}

impl TextSet {
    /// The items are the texts of the index, each once.
    pub open spec fn wf(&self) -> bool {
        &&& forall|k: int| 0 <= k < self.items@.len() ==> self.index@.contains(#[trigger] self.items@[k]@)
        &&& forall|t: Seq<char>| #[trigger]
            self.index@.contains(t) ==> exists|k: int|
                0 <= k < self.items@.len() && self.items@[k]@ == t
        &&& forall|i: int, j: int|
            0 <= i < j < self.items@.len() ==> self.items@[i]@ != self.items@[j]@
    }

    /// The empty set.
    pub fn new() -> (set: Self)
        ensures
            set.wf(),
            set@ == Set::<Seq<char>>::empty(),
    {
        TextSet { items: Vec::new(), index: StringHashSet::new() }
    }

    /// Whether the set holds `text`.
    pub fn contains(&self, text: &str) -> (found: bool)
        ensures
            found == self@.contains(text@),
    {
        self.index.contains(text)
    }

    /// How many texts the set holds.
    pub fn len(&self) -> (count: usize)
        ensures
            count == self.items@.len(),
    {
        self.items.len()
    }

    /// Puts `text` into the set; says whether it was new.
    pub fn insert(&mut self, text: String) -> (added: bool)
        requires
            old(self).wf(),
        ensures
            final(self).wf(),
            final(self)@ == old(self)@.insert(text@),
            added == !old(self)@.contains(text@),
            added ==> final(self).items@ == old(self).items@.push(text),
            !added ==> final(self).items@ == old(self).items@,
    {
        if self.index.contains(text.as_str()) {
            assert(self.index@.insert(text@) =~= self.index@);
            return false;
        }
        let ghost before = *self;
        self.index.insert(text.clone());
        self.items.push(text);
        proof {
            assert forall|t: Seq<char>| #[trigger] self.index@.contains(t) implies exists|k: int|
                0 <= k < self.items@.len() && self.items@[k]@ == t by {
                if t == text@ {
                    assert(self.items@[self.items@.len() - 1]@ == t);
                } else {
                    assert(before.index@.contains(t));
                    let k = choose|k: int| 0 <= k < before.items@.len() && before.items@[k]@ == t;
                    assert(self.items@[k]@ == t);
                }
            }
            assert forall|k: int| 0 <= k < self.items@.len() implies self.index@.contains(
                #[trigger] self.items@[k]@,
            ) by {
                if k < before.items@.len() {
                    assert(before.index@.contains(before.items@[k]@));
                }
            }
            assert forall|i: int, j: int| 0 <= i < j < self.items@.len() implies self.items@[i]@
                != self.items@[j]@ by {
                assert(before.index@.contains(before.items@[i]@));
            }
        }
        true
    }

    /// The set of the texts in `lines`.
    pub fn from_lines(lines: &Vec<String>) -> (set: Self)
        ensures
            set.wf(),
            forall|t: Seq<char>|
                set@.contains(t) <==> exists|k: int| 0 <= k < lines@.len() && lines@[k]@ == t,
    {
        let mut set = TextSet::new();
        let mut k: usize = 0;
        while k < lines.len()
            invariant
                k <= lines.len(),
                set.wf(),
                forall|t: Seq<char>|
                    set@.contains(t) <==> exists|e: int| 0 <= e < k && lines@[e]@ == t,
            decreases lines.len() - k,
        {
            let ghost before = set@;
            set.insert(lines[k].clone());
            proof {
                assert forall|t: Seq<char>| set@.contains(t) <==> exists|e: int|
                    0 <= e < k + 1 && lines@[e]@ == t by {
                    if set@.contains(t) {
                        if t == lines@[k as int]@ {
                            assert(lines@[k as int]@ == t);
                        } else {
                            assert(before.contains(t));
                            let e = choose|e: int| 0 <= e < k && lines@[e]@ == t;
                            assert(0 <= e < k + 1 && lines@[e]@ == t);
                        }
                    }
                    if exists|e: int| 0 <= e < k + 1 && lines@[e]@ == t {
                        let e = choose|e: int| 0 <= e < k + 1 && lines@[e]@ == t;
                        if e < k {
                            assert(before.contains(t));
                        }
                    }
                }
            }
            k += 1;
        }
        set
    }
}

/// The texts that are in `set_a` or in `set_b`.
pub fn set_union(set_a: &TextSet, set_b: &TextSet) -> (out: TextSet)
    requires
        set_a.wf(),
        set_b.wf(),
    ensures
        out.wf(),
        out@ == set_a@.union(set_b@),
{
    let mut out = TextSet::new();
    let mut k: usize = 0;
    while k < set_a.items.len()
        invariant
            k <= set_a.items@.len(),
            set_a.wf(),
            out.wf(),
            forall|t: Seq<char>|
                out@.contains(t) <==> exists|e: int| 0 <= e < k && set_a.items@[e]@ == t,
        decreases set_a.items@.len() - k,
    {
        let ghost before = out@;
        out.insert(set_a.items[k].clone());
        proof {
            assert forall|t: Seq<char>| out@.contains(t) <==> exists|e: int|
                0 <= e < k + 1 && set_a.items@[e]@ == t by {
                if out@.contains(t) {
                    if t == set_a.items@[k as int]@ {
                    } else {
                        assert(before.contains(t));
                        let e = choose|e: int| 0 <= e < k && set_a.items@[e]@ == t;
                        assert(0 <= e < k + 1 && set_a.items@[e]@ == t);
                    }
                }
                if exists|e: int| 0 <= e < k + 1 && set_a.items@[e]@ == t {
                    let e = choose|e: int| 0 <= e < k + 1 && set_a.items@[e]@ == t;
                    if e < k {
                        assert(before.contains(t));
                    }
                }
            }
        }
        k += 1;
    }
    proof {
        assert forall|t: Seq<char>| out@.contains(t) <==> set_a@.contains(t) by {
            if out@.contains(t) {
                let e = choose|e: int| 0 <= e < k && set_a.items@[e]@ == t;
                assert(set_a.index@.contains(set_a.items@[e]@));
            }
        }
        assert(out@ =~= set_a@);
    }
    let mut j: usize = 0;
    while j < set_b.items.len()
        invariant
            j <= set_b.items@.len(),
            set_b.wf(),
            out.wf(),
            forall|t: Seq<char>|
                out@.contains(t) <==> (set_a@.contains(t) || exists|e: int|
                    0 <= e < j && set_b.items@[e]@ == t),
        decreases set_b.items@.len() - j,
    {
        let ghost before = out@;
        out.insert(set_b.items[j].clone());
        proof {
            assert forall|t: Seq<char>| out@.contains(t) <==> (set_a@.contains(t) || exists|e: int|
                0 <= e < j + 1 && set_b.items@[e]@ == t) by {
                if out@.contains(t) && !set_a@.contains(t) {
                    if t == set_b.items@[j as int]@ {
                    } else {
                        assert(before.contains(t));
                        let e = choose|e: int| 0 <= e < j && set_b.items@[e]@ == t;
                        assert(0 <= e < j + 1 && set_b.items@[e]@ == t);
                    }
                }
                if exists|e: int| 0 <= e < j + 1 && set_b.items@[e]@ == t {
                    let e = choose|e: int| 0 <= e < j + 1 && set_b.items@[e]@ == t;
                    if e < j {
                        assert(before.contains(t));
                    }
                }
                if set_a@.contains(t) {
                    assert(before.contains(t));
                }
            }
        }
        j += 1;
    }
    proof {
        assert forall|t: Seq<char>| out@.contains(t) <==> (set_a@.contains(t) || set_b@.contains(
            t,
        )) by {
            if out@.contains(t) && !set_a@.contains(t) {
                let e = choose|e: int| 0 <= e < j && set_b.items@[e]@ == t;
                assert(set_b.index@.contains(set_b.items@[e]@));
            }
        }
        assert(out@ =~= set_a@.union(set_b@));
    }
    out
}

/// The texts of `set_a` for which membership in `set_b` is `wanted`.
fn select(set_a: &TextSet, set_b: &TextSet, wanted: bool) -> (out: TextSet)
    requires
        set_a.wf(),
        set_b.wf(),
    ensures
        out.wf(),
        forall|t: Seq<char>|
            out@.contains(t) <==> (set_a@.contains(t) && set_b@.contains(t) == wanted),
{
    let mut out = TextSet::new();
    let mut k: usize = 0;
    while k < set_a.items.len()
        invariant
            k <= set_a.items@.len(),
            set_a.wf(),
            out.wf(),
            forall|t: Seq<char>|
                out@.contains(t) <==> (set_b@.contains(t) == wanted && exists|e: int|
                    0 <= e < k && set_a.items@[e]@ == t),
        decreases set_a.items@.len() - k,
    {
        let ghost before = out@;
        if set_b.contains(set_a.items[k].as_str()) == wanted {
            out.insert(set_a.items[k].clone());
        }
        proof {
            assert forall|t: Seq<char>| out@.contains(t) <==> (set_b@.contains(t) == wanted
                && exists|e: int| 0 <= e < k + 1 && set_a.items@[e]@ == t) by {
                if out@.contains(t) {
                    if t == set_a.items@[k as int]@ && !before.contains(t) {
                    } else {
                        assert(before.contains(t));
                        let e = choose|e: int| 0 <= e < k && set_a.items@[e]@ == t;
                        assert(0 <= e < k + 1 && set_a.items@[e]@ == t);
                    }
                }
                if set_b@.contains(t) == wanted && exists|e: int|
                    0 <= e < k + 1 && set_a.items@[e]@ == t {
                    let e = choose|e: int| 0 <= e < k + 1 && set_a.items@[e]@ == t;
                    if e < k {
                        assert(before.contains(t));
                    }
                }
            }
        }
        k += 1;
    }
    proof {
        assert forall|t: Seq<char>| out@.contains(t) <==> (set_a@.contains(t) && set_b@.contains(
            t,
        ) == wanted) by {
            if out@.contains(t) {
                let e = choose|e: int| 0 <= e < k && set_a.items@[e]@ == t;
                assert(set_a.index@.contains(set_a.items@[e]@));
            }
        }
    }
    out
}

/// The texts that are in `set_a` and in `set_b`.
pub fn set_intersection(set_a: &TextSet, set_b: &TextSet) -> (out: TextSet)
    requires
        set_a.wf(),
        set_b.wf(),
    ensures
        out.wf(),
        out@ == set_a@.intersect(set_b@),
{
    let out = select(set_a, set_b, true);
    assert(out@ =~= set_a@.intersect(set_b@));
    out
}

/// The texts that are in `set_a` and not in `set_b`.
pub fn set_difference(set_a: &TextSet, set_b: &TextSet) -> (out: TextSet)
    requires
        set_a.wf(),
        set_b.wf(),
    ensures
        out.wf(),
        out@ == set_a@.difference(set_b@),
{
    let out = select(set_a, set_b, false);
    assert(out@ =~= set_a@.difference(set_b@));
    out
}

} // verus!
