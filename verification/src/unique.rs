use vstd::prelude::*;

verus! {

/// The numbers stand in strictly increasing order.
pub open spec fn strictly_increasing(s: Seq<i32>) -> bool {
    forall|i: int, j: int| 0 <= i < j < s.len() ==> s[i] < s[j]
}

/// Puts `value` at its place into an increasing list, unless it is there already.
pub fn insert_sorted(list: &mut Vec<i32>, value: i32)
    requires
        strictly_increasing(old(list)@),
    ensures
        strictly_increasing(final(list)@),
        final(list)@.to_set() == old(list)@.to_set().insert(value),
{
    let mut place: usize = 0;
    while place < list.len() && list[place] < value
        invariant
            place <= list@.len(),
            list@ == old(list)@,
            strictly_increasing(list@),
            forall|e: int| 0 <= e < place ==> list@[e] < value,
        decreases list@.len() - place,
    {
        place += 1;
    }
    if place < list.len() && list[place] == value {
        assert(list@.to_set() =~= old(list)@.to_set().insert(value)) by {
            assert(list@.contains(list@[place as int]));
        }
        return ;
    }
    let ghost before = list@;
    list.insert(place, value);
    proof {
        assert(list@ == before.insert(place as int, value));
        assert forall|i: int, j: int| 0 <= i < j < list@.len() implies list@[i] < list@[j] by {
            if j < place {
            } else if j == place {
                assert(list@[i] == before[i]);
            } else if i < place {
                assert(list@[j] == before[j - 1]);
                assert(list@[i] == before[i]);
                if j - 1 > place {
                    assert(before[place as int] < before[j - 1]);
                }
            } else if i == place {
                assert(list@[j] == before[j - 1]);
                if j - 1 > place {
                    assert(before[place as int] < before[j - 1]);
                }
            } else {
                assert(list@[i] == before[i - 1]);
                assert(list@[j] == before[j - 1]);
            }
        }
        assert forall|x: i32| list@.to_set().contains(x) <==> before.to_set().insert(
            value,
        ).contains(x) by {
            if list@.contains(x) {
                let k = choose|k: int| 0 <= k < list@.len() && list@[k] == x;
                if k < place {
                    assert(before[k] == x);
                    assert(before.contains(x));
                } else if k > place {
                    assert(before[k - 1] == x);
                    assert(before.contains(x));
                }
            }
            if before.contains(x) {
                let k = choose|k: int| 0 <= k < before.len() && before[k] == x;
                if k < place {
                    assert(list@[k] == x);
                } else {
                    assert(list@[k + 1] == x);
                }
                assert(list@.contains(x));
            }
            if x == value {
                assert(list@[place as int] == x);
                assert(list@.contains(x));
            }
        }
        assert(list@.to_set() =~= before.to_set().insert(value));
    }
}

/// The numbers of `list`, each once, in increasing order.
pub fn unique(list: Vec<i32>) -> (out: Vec<i32>)
    ensures
        strictly_increasing(out@),
        out@.to_set() == list@.to_set(),
{
    let mut out: Vec<i32> = Vec::new();
    let mut k: usize = 0;
    assert(out@.to_set() =~= list@.take(0).to_set());
    while k < list.len()
        invariant
            k <= list@.len(),
            strictly_increasing(out@),
            out@.to_set() == list@.take(k as int).to_set(),
        decreases list@.len() - k,
    {
        insert_sorted(&mut out, list[k]);
        proof {
            let next = list@.take(k as int + 1);
            let prev = list@.take(k as int);
            assert(next =~= prev.push(list@[k as int]));
            assert forall|x: i32| next.to_set().contains(x) <==> prev.to_set().insert(
                list@[k as int],
            ).contains(x) by {
                if next.contains(x) {
                    let e = choose|e: int| 0 <= e < next.len() && next[e] == x;
                    if e < k {
                        assert(prev[e] == x);
                        assert(prev.contains(x));
                    }
                }
                if prev.contains(x) {
                    let e = choose|e: int| 0 <= e < prev.len() && prev[e] == x;
                    assert(next[e] == x);
                    assert(next.contains(x));
                }
                if x == list@[k as int] {
                    assert(next[k as int] == x);
                    assert(next.contains(x));
                }
            }
            assert(next.to_set() =~= prev.to_set().insert(list@[k as int]));
        }
        k += 1;
    }
    assert(list@.take(list@.len() as int) =~= list@);
    out
}

} // verus!
