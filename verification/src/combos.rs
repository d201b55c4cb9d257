use crate::text::{
    lemma_text_less_asymmetric, lemma_text_less_total, lemma_text_less_transitive, text_before,
    text_less, texts_of,
};
use vstd::hash_set::StringHashSet;
use vstd::prelude::*;

verus! {

/// The predicate that holds of the texts that are not among `taken`.
pub open spec fn not_among(taken: Seq<Seq<char>>) -> spec_fn(Seq<char>) -> bool {
    |t: Seq<char>| !taken.contains(t)
}

/// The items that are not in the combination, in their order.
pub fn get_combo_compliment(items: Vec<String>, combo: Vec<String>) -> (rest: Vec<String>)
    ensures
        texts_of(rest@) == texts_of(items@).filter(not_among(texts_of(combo@))),
{
    let mut old_combo = StringHashSet::new();
    let mut k: usize = 0;
    while k < combo.len()
        invariant
            k <= combo@.len(),
            forall|t: Seq<char>|
                old_combo@.contains(t) <==> texts_of(combo@).take(k as int).contains(t),
        decreases combo@.len() - k,
    {
        let ghost before = old_combo@;
        old_combo.insert(combo[k].clone());
        proof {
            let all = texts_of(combo@);
            let prev = all.take(k as int);
            let next = all.take(k as int + 1);
            assert forall|t: Seq<char>| old_combo@.contains(t) <==> next.contains(t) by {
                if next.contains(t) {
                    let e = choose|e: int| 0 <= e < next.len() && next[e] == t;
                    if e < k {
                        assert(prev[e] == t);
                        assert(prev.contains(t));
                    }
                }
                if before.contains(t) {
                    let e = choose|e: int| 0 <= e < prev.len() && prev[e] == t;
                    assert(next[e] == t);
                }
                if t == combo@[k as int]@ {
                    assert(next[k as int] == t);
                }
            }
        }
        k += 1;
    }
    assert(texts_of(combo@).take(combo@.len() as int) =~= texts_of(combo@));
    let mut new_combo: Vec<String> = Vec::new();
    let mut index: usize = 0;
    proof {
        reveal(Seq::filter);
        assert(texts_of(new_combo@) =~= texts_of(items@).take(0).filter(
            not_among(texts_of(combo@)),
        ));
    }
    while index < items.len()
        invariant
            index <= items@.len(),
            forall|t: Seq<char>| old_combo@.contains(t) <==> texts_of(combo@).contains(t),
            texts_of(new_combo@) == texts_of(items@).take(index as int).filter(
                not_among(texts_of(combo@)),
            ),
        decreases items@.len() - index,
    {
        let item_to_check = &items[index];
        proof {
            reveal(Seq::filter);
            let next = texts_of(items@).take(index as int + 1);
            assert(next.drop_last() =~= texts_of(items@).take(index as int));
            assert(next.last() == items@[index as int]@);
        }
        if !old_combo.contains(item_to_check.as_str()) {
            let ghost before = texts_of(new_combo@);
            new_combo.push(item_to_check.clone());
            assert(texts_of(new_combo@) =~= before.push(items@[index as int]@));
        }
        index += 1;
    }
    assert(texts_of(items@).take(items@.len() as int) =~= texts_of(items@));
    new_combo
}

/// The texts stand in the order of the dictionary, none twice.
pub open spec fn strictly_sorted(s: Seq<Seq<char>>) -> bool {
    forall|i: int, j: int| 0 <= i < j < s.len() ==> text_less(s[i], s[j])
}

/// `combo` is a choice of up to `number` more items from `available` on top of `chosen`:
/// it is sorted, holds all of `chosen` and nothing but items of `chosen` and `available`,
/// and falls short of `number` more only if it holds every item of `available`.
pub open spec fn is_choice(
    combo: Seq<Seq<char>>,
    chosen: Seq<Seq<char>>,
    available: Seq<Seq<char>>,
    number: int,
) -> bool {
    &&& strictly_sorted(combo)
    &&& combo.len() <= chosen.len() + number
    &&& forall|k: int| 0 <= k < chosen.len() ==> combo.contains(#[trigger] chosen[k])
    &&& forall|k: int|
        0 <= k < combo.len() ==> chosen.contains(#[trigger] combo[k]) || available.contains(
            combo[k],
        )
    &&& combo.len() < chosen.len() + number ==> forall|k: int|
        0 <= k < available.len() ==> combo.contains(#[trigger] available[k])
}

/// A sorted list holds no text twice.
pub proof fn lemma_sorted_is_duplicate_free(s: Seq<Seq<char>>)
    requires
        strictly_sorted(s),
    ensures
        s.no_duplicates(),
{
    assert forall|i: int, j: int| 0 <= i < s.len() && 0 <= j < s.len() && i != j implies s[i]
        != s[j] by {
        if i < j {
            lemma_text_less_asymmetric(s[i], s[j]);
        } else {
            lemma_text_less_asymmetric(s[j], s[i]);
        }
    }
}

/// A sorted list that holds all of another sorted list and is no longer holds nothing else.
pub proof fn lemma_no_room_for_more(c: Seq<Seq<char>>, chosen: Seq<Seq<char>>)
    requires
        strictly_sorted(c),
        strictly_sorted(chosen),
        c.len() <= chosen.len(),
        forall|k: int| 0 <= k < chosen.len() ==> c.contains(#[trigger] chosen[k]),
    ensures
        c.len() == chosen.len(),
        forall|k: int| 0 <= k < c.len() ==> chosen.contains(#[trigger] c[k]),
{
    lemma_sorted_is_duplicate_free(c);
    lemma_sorted_is_duplicate_free(chosen);
    c.unique_seq_to_set();
    chosen.unique_seq_to_set();
    vstd::seq_lib::seq_to_set_is_finite(c);
    vstd::seq_lib::seq_to_set_is_finite(chosen);
    assert(chosen.to_set().subset_of(c.to_set())) by {
        assert forall|t: Seq<char>| chosen.to_set().contains(t) implies c.to_set().contains(
            t,
        ) by {
            let k = choose|k: int| 0 <= k < chosen.len() && chosen[k] == t;
            assert(c.contains(chosen[k]));
        }
    }
    vstd::set_lib::lemma_len_subset(chosen.to_set(), c.to_set());
    vstd::set_lib::lemma_subset_equality(chosen.to_set(), c.to_set());
    assert forall|k: int| 0 <= k < c.len() implies chosen.contains(#[trigger] c[k]) by {
        assert(c.contains(c[k]));
        assert(c.to_set().contains(c[k]));
        assert(chosen.to_set().contains(c[k]));
    }
}

/// Two sorted lists that hold the same texts are the same list.
pub proof fn lemma_sorted_lists_agree(x: Seq<Seq<char>>, y: Seq<Seq<char>>)
    requires
        strictly_sorted(x),
        strictly_sorted(y),
        forall|k: int| 0 <= k < x.len() ==> y.contains(#[trigger] x[k]),
        forall|k: int| 0 <= k < y.len() ==> x.contains(#[trigger] y[k]),
    ensures
        x == y,
    decreases x.len(),
{
    if x.len() <= y.len() {
        lemma_no_room_for_more(x, y);
    } else {
        lemma_no_room_for_more(y, x);
    }
    if x.len() == 0 {
        assert(x =~= y);
    } else {
        let n = x.len() as int;
        let top = x[n - 1];
        assert(y.contains(top));
        let j = choose|j: int| 0 <= j < n && y[j] == top;
        assert(x.contains(y[n - 1]));
        let i = choose|i: int| 0 <= i < n && x[i] == y[n - 1];
        if j < n - 1 {
            if i < n - 1 {
                lemma_text_less_transitive(x[i], top, y[n - 1]);
                lemma_text_less_asymmetric(x[i], x[i]);
            } else {
                lemma_text_less_asymmetric(top, top);
            }
        }
        assert(y[n - 1] == top);
        let xr = x.drop_last();
        let yr = y.drop_last();
        assert forall|k: int| 0 <= k < xr.len() implies yr.contains(#[trigger] xr[k]) by {
            assert(y.contains(x[k]));
            let e = choose|e: int| 0 <= e < n && y[e] == x[k];
            if e == n - 1 {
                lemma_text_less_asymmetric(x[k], x[k]);
            }
            assert(yr[e] == xr[k]);
        }
        assert forall|k: int| 0 <= k < yr.len() implies xr.contains(#[trigger] yr[k]) by {
            assert(x.contains(y[k]));
            let e = choose|e: int| 0 <= e < n && x[e] == y[k];
            if e == n - 1 {
                lemma_text_less_asymmetric(y[k], y[k]);
            }
            assert(xr[e] == yr[k]);
        }
        assert(strictly_sorted(xr)) by {
            assert forall|a: int, b: int| 0 <= a < b < xr.len() implies text_less(xr[a], xr[b]) by {
                assert(text_less(x[a], x[b]));
            }
        }
        assert(strictly_sorted(yr)) by {
            assert forall|a: int, b: int| 0 <= a < b < yr.len() implies text_less(yr[a], yr[b]) by {
                assert(text_less(y[a], y[b]));
            }
        }
        lemma_sorted_lists_agree(xr, yr);
        assert(x =~= xr.push(top));
        assert(y =~= yr.push(top));
    }
}

/// Where nothing more can be chosen, the only choice is what was chosen already.
pub proof fn lemma_last_choice(
    combo: Seq<Seq<char>>,
    chosen: Seq<Seq<char>>,
    available: Seq<Seq<char>>,
    number: int,
)
    requires
        strictly_sorted(chosen),
        is_choice(combo, chosen, available, number),
        number == 0 || available.len() == 0,
    ensures
        combo == chosen,
{
    if available.len() == 0 {
        assert forall|k: int| 0 <= k < combo.len() implies chosen.contains(#[trigger] combo[k]) by {
            if available.contains(combo[k]) {
                let e = choose|e: int| 0 <= e < available.len() && available[e] == combo[k];
            }
        }
    } else {
        lemma_no_room_for_more(combo, chosen);
    }
    lemma_sorted_lists_agree(combo, chosen);
}

/// Where more can be chosen, every choice holds an item that is still available.
pub proof fn lemma_choice_takes_an_item(
    combo: Seq<Seq<char>>,
    chosen: Seq<Seq<char>>,
    available: Seq<Seq<char>>,
    number: int,
) -> (i: int)
    requires
        strictly_sorted(chosen),
        is_choice(combo, chosen, available, number),
        number > 0,
        available.len() > 0,
        forall|k: int| 0 <= k < available.len() ==> !chosen.contains(#[trigger] available[k]),
    ensures
        0 <= i < available.len(),
        combo.contains(available[i]),
{
    if forall|k: int| 0 <= k < combo.len() ==> chosen.contains(#[trigger] combo[k]) {
        lemma_sorted_lists_agree(combo, chosen);
        assert(combo.contains(available[0]));
        assert(false);
    }
    let e = choose|e: int| 0 <= e < combo.len() && !chosen.contains(#[trigger] combo[e]);
    assert(available.contains(combo[e]));
    let i = choose|i: int| 0 <= i < available.len() && available[i] == combo[e];
    assert(combo[e] == available[i]);
    i
}

/// What a list of combinations holds.
pub open spec fn combos_of(list: Seq<Vec<String>>) -> Seq<Seq<Seq<char>>> {
    Seq::new(list.len(), |k: int| texts_of(list[k]@))
}

/// Decides whether two lists hold the same texts.
pub fn same_texts(a: &Vec<String>, b: &Vec<String>) -> (same: bool)
    ensures
        same == (texts_of(a@) == texts_of(b@)),
{
    if a.len() != b.len() {
        assert(texts_of(a@).len() != texts_of(b@).len());
        return false;
    }
    let mut k: usize = 0;
    while k < a.len()
        invariant
            k <= a@.len(),
            a@.len() == b@.len(),
            forall|e: int| 0 <= e < k ==> a@[e]@ == b@[e]@,
        decreases a@.len() - k,
    {
        if a[k] != b[k] {
            assert(texts_of(a@)[k as int] != texts_of(b@)[k as int]);
            return false;
        }
        k += 1;
    }
    assert(texts_of(a@) =~= texts_of(b@));
    true
}

/// Decides whether the list holds the combination.
pub fn holds_combo(list: &Vec<Vec<String>>, combo: &Vec<String>) -> (found: bool)
    ensures
        found == combos_of(list@).contains(texts_of(combo@)),
{
    let mut k: usize = 0;
    while k < list.len()
        invariant
            k <= list@.len(),
            forall|e: int| 0 <= e < k ==> combos_of(list@)[e] != texts_of(combo@),
        decreases list@.len() - k,
    {
        if same_texts(&list[k], combo) {
            assert(combos_of(list@)[k as int] == texts_of(combo@));
            return true;
        }
        k += 1;
    }
    false
}

/// The predicate that holds of the texts other than `item`.
pub open spec fn other_than(item: Seq<char>) -> spec_fn(Seq<char>) -> bool {
    |t: Seq<char>| t != item
}

/// The items without every one that equals `item`.
pub fn remove_all(available: &Vec<String>, item: &String) -> (others: Vec<String>)
    ensures
        texts_of(others@) == texts_of(available@).filter(other_than(item@)),
{
    let mut others: Vec<String> = Vec::new();
    let mut index: usize = 0;
    proof {
        reveal(Seq::filter);
        assert(texts_of(others@) =~= texts_of(available@).take(0).filter(other_than(item@)));
    }
    while index < available.len()
        invariant
            index <= available@.len(),
            texts_of(others@) == texts_of(available@).take(index as int).filter(
                other_than(item@),
            ),
        decreases available@.len() - index,
    {
        proof {
            reveal(Seq::filter);
            let next = texts_of(available@).take(index as int + 1);
            assert(next.drop_last() =~= texts_of(available@).take(index as int));
            assert(next.last() == available@[index as int]@);
        }
        if available[index] != *item {
            let ghost before = texts_of(others@);
            others.push(available[index].clone());
            assert(texts_of(others@) =~= before.push(available@[index as int]@));
        }
        index += 1;
    }
    assert(texts_of(available@).take(available@.len() as int) =~= texts_of(available@));
    others
}

/// A copy of a sorted list with `item`, which it does not hold, put at its place.
pub fn with_item_sorted(chosen: &Vec<String>, item: &String) -> (out: Vec<String>)
    requires
        strictly_sorted(texts_of(chosen@)),
        !texts_of(chosen@).contains(item@),
    ensures
        strictly_sorted(texts_of(out@)),
        out@.len() == chosen@.len() + 1,
        texts_of(out@).contains(item@),
        forall|k: int| 0 <= k < chosen@.len() ==> texts_of(out@).contains(#[trigger] chosen@[k]@),
        forall|k: int|
            0 <= k < out@.len() ==> (#[trigger] out@[k]@ == item@ || texts_of(chosen@).contains(
                out@[k]@,
            )),
{
    let ghost old_texts = texts_of(chosen@);
    let mut out: Vec<String> = Vec::new();
    let mut k: usize = 0;
    while k < chosen.len() && text_before(chosen[k].as_str(), item.as_str())
        invariant
            k <= chosen@.len(),
            out@.len() == k,
            forall|e: int| 0 <= e < k ==> out@[e]@ == chosen@[e]@,
            forall|e: int| 0 <= e < k ==> text_less(chosen@[e]@, item@),
        decreases chosen@.len() - k,
    {
        out.push(chosen[k].clone());
        k += 1;
    }
    let place = k;
    out.push(item.clone());
    while k < chosen.len()
        invariant
            place <= k <= chosen@.len(),
            out@.len() == k + 1,
            forall|e: int| 0 <= e < place ==> out@[e]@ == chosen@[e]@,
            out@[place as int]@ == item@,
            forall|e: int| place <= e < k ==> out@[e + 1]@ == chosen@[e]@,
        decreases chosen@.len() - k,
    {
        out.push(chosen[k].clone());
        k += 1;
    }
    proof {
        let new_texts = texts_of(out@);
        assert(new_texts[place as int] == item@);
        assert forall|e: int| place <= e < chosen@.len() implies text_less(
            item@,
            #[trigger] chosen@[e]@,
        ) by {
            assert(old_texts[e] == chosen@[e]@);
            assert(old_texts[place as int] == chosen@[place as int]@);
            assert(old_texts.contains(old_texts[place as int]));
            if !text_less(item@, chosen@[place as int]@) {
                lemma_text_less_total(item@, chosen@[place as int]@);
            }
            if e > place {
                assert(text_less(old_texts[place as int], old_texts[e]));
                lemma_text_less_transitive(item@, chosen@[place as int]@, chosen@[e]@);
            }
        }
        assert forall|i: int, j: int| 0 <= i < j < new_texts.len() implies text_less(
            new_texts[i],
            new_texts[j],
        ) by {
            if j < place {
                assert(text_less(old_texts[i], old_texts[j]));
            } else if j == place {
            } else if i < place {
                assert(new_texts[j] == old_texts[j - 1]);
                if j - 1 > i {
                    assert(text_less(old_texts[i], old_texts[j - 1]));
                }
                lemma_text_less_transitive(new_texts[i], item@, new_texts[j]);
            } else if i == place {
                assert(new_texts[j] == chosen@[j - 1]@);
            } else {
                assert(new_texts[i] == old_texts[i - 1]);
                assert(new_texts[j] == old_texts[j - 1]);
                assert(text_less(old_texts[i - 1], old_texts[j - 1]));
            }
        }
        assert forall|e: int| 0 <= e < chosen@.len() implies new_texts.contains(
            #[trigger] chosen@[e]@,
        ) by {
            if e < place {
                assert(new_texts[e] == chosen@[e]@);
            } else {
                assert(new_texts[e + 1] == chosen@[e]@);
            }
        }
        assert forall|e: int| 0 <= e < out@.len() implies (#[trigger] out@[e]@ == item@
            || old_texts.contains(out@[e]@)) by {
            if e < place {
                assert(old_texts[e] == out@[e]@);
            } else if e > place {
                assert(old_texts[e - 1] == out@[e]@);
            }
        }
    }
    out
}

/// Adds to the list every way found of choosing up to `number_to_choose` more items from
/// `available` on top of `chosen`, each way once.
pub fn explore(
    available: &Vec<String>,
    chosen: &Vec<String>,
    number_to_choose: usize,
    combo_list: &mut Vec<Vec<String>>,
)
    requires
        strictly_sorted(texts_of(chosen@)),
        forall|k: int|
            0 <= k < available@.len() ==> !texts_of(chosen@).contains(#[trigger] available@[k]@),
        combos_of(old(combo_list)@).no_duplicates(),
    ensures
        combos_of(final(combo_list)@).no_duplicates(),
        old(combo_list)@.len() <= final(combo_list)@.len(),
        forall|e: int|
            0 <= e < old(combo_list)@.len() ==> combos_of(final(combo_list)@)[e] == combos_of(
                old(combo_list)@,
            )[e],
        final(combo_list)@.len() > 0,
        forall|e: int|
            old(combo_list)@.len() <= e < final(combo_list)@.len() ==> is_choice(
                #[trigger] combos_of(final(combo_list)@)[e],
                texts_of(chosen@),
                texts_of(available@),
                number_to_choose as int,
            ),
        forall|combo: Seq<Seq<char>>| #[trigger]
            is_choice(combo, texts_of(chosen@), texts_of(available@), number_to_choose as int)
                ==> combos_of(final(combo_list)@).contains(combo),
    decreases number_to_choose,
{
    let ghost chosen_texts = texts_of(chosen@);
    let ghost available_texts = texts_of(available@);
    if number_to_choose == 0 || available.len() == 0 {
        if !holds_combo(combo_list, chosen) {
            let ghost before = combos_of(combo_list@);
            let mut copy: Vec<String> = Vec::new();
            let mut k: usize = 0;
            while k < chosen.len()
                invariant
                    k <= chosen@.len(),
                    copy@.len() == k,
                    forall|e: int| 0 <= e < k ==> copy@[e]@ == chosen@[e]@,
                decreases chosen@.len() - k,
            {
                copy.push(chosen[k].clone());
                k += 1;
            }
            assert(texts_of(copy@) =~= chosen_texts);
            combo_list.push(copy);
            proof {
                assert(combos_of(combo_list@) =~= before.push(chosen_texts));
                assert forall|k: int| 0 <= k < chosen_texts.len() implies chosen_texts.contains(
                    #[trigger] chosen_texts[k],
                ) by {}
                assert(is_choice(
                    chosen_texts,
                    chosen_texts,
                    available_texts,
                    number_to_choose as int,
                ));
                assert(combos_of(combo_list@)[before.len() as int] == chosen_texts);
            }
        }
        proof {
            assert forall|combo: Seq<Seq<char>>| #[trigger]
                is_choice(combo, chosen_texts, available_texts, number_to_choose as int)
                implies combos_of(combo_list@).contains(combo) by {
                lemma_last_choice(combo, chosen_texts, available_texts, number_to_choose as int);
            }
        }
        return ;
    }
    let mut index: usize = 0;
    while index < available.len()
        invariant
            index <= available@.len(),
            number_to_choose > 0,
            chosen_texts == texts_of(chosen@),
            available_texts == texts_of(available@),
            strictly_sorted(chosen_texts),
            forall|k: int|
                0 <= k < available@.len() ==> !chosen_texts.contains(#[trigger] available@[k]@),
            combos_of(combo_list@).no_duplicates(),
            old(combo_list)@.len() <= combo_list@.len(),
            index > 0 ==> combo_list@.len() > 0,
            forall|e: int|
                0 <= e < old(combo_list)@.len() ==> combos_of(combo_list@)[e] == combos_of(
                    old(combo_list)@,
                )[e],
            forall|e: int|
                old(combo_list)@.len() <= e < combo_list@.len() ==> is_choice(
                    #[trigger] combos_of(combo_list@)[e],
                    chosen_texts,
                    available_texts,
                    number_to_choose as int,
                ),
            forall|combo: Seq<Seq<char>>, i: int| #[trigger]
                is_choice(combo, chosen_texts, available_texts, number_to_choose as int) && 0 <= i
                    < index && combo.contains(#[trigger] available_texts[i]) ==> combos_of(
                    combo_list@,
                ).contains(combo),
        decreases available@.len() - index,
    {
        let item = &available[index];
        let others = remove_all(available, item);
        let new_chosen = with_item_sorted(chosen, item);
        let ghost before = combos_of(combo_list@);
        let ghost before_len = combo_list@.len();
        let ghost other_texts = texts_of(others@);
        let ghost new_texts = texts_of(new_chosen@);
        proof {
            assert(available_texts[index as int] == item@);
            assert forall|k: int| 0 <= k < others@.len() implies !new_texts.contains(
                #[trigger] others@[k]@,
            ) by {
                let t = others@[k]@;
                assert(other_texts[k] == t);
                available_texts.lemma_filter_pred(other_than(item@), k);
                assert(t != item@);
                lemma_filtered_came_from(available_texts, other_than(item@), k);
                if new_texts.contains(t) {
                    let e = choose|e: int| 0 <= e < new_texts.len() && new_texts[e] == t;
                    assert(new_chosen@[e]@ == t);
                    let a = choose|a: int| 0 <= a < available_texts.len() && available_texts[a] == t;
                    assert(available@[a]@ == t);
                }
            }
        }
        explore(&others, &new_chosen, number_to_choose - 1, combo_list);
        proof {
            assert forall|combo: Seq<Seq<char>>, i: int| #[trigger]
                is_choice(combo, chosen_texts, available_texts, number_to_choose as int) && 0 <= i
                    < index + 1 && combo.contains(
                #[trigger] available_texts[i]) implies combos_of(combo_list@).contains(combo) by {
                if i < index {
                    assert(before.contains(combo));
                    let e = choose|e: int| 0 <= e < before.len() && before[e] == combo;
                    assert(combos_of(combo_list@)[e] == combo);
                } else {
                    assert forall|k: int| 0 <= k < new_texts.len() implies combo.contains(
                        #[trigger] new_texts[k],
                    ) by {
                        assert(new_texts[k] == new_chosen@[k]@);
                        if new_chosen@[k]@ != item@ {
                            let a = choose|a: int|
                                0 <= a < chosen_texts.len() && chosen_texts[a] == new_texts[k];
                            assert(combo.contains(chosen_texts[a]));
                        }
                    }
                    assert forall|k: int| 0 <= k < combo.len() implies new_texts.contains(
                        #[trigger] combo[k],
                    ) || other_texts.contains(combo[k]) by {
                        if chosen_texts.contains(combo[k]) {
                            let a = choose|a: int|
                                0 <= a < chosen_texts.len() && chosen_texts[a] == combo[k];
                            assert(chosen_texts[a] == chosen@[a]@);
                            assert(new_texts.contains(chosen@[a]@));
                        } else if combo[k] == item@ {
                        } else {
                            let a = choose|a: int|
                                0 <= a < available_texts.len() && available_texts[a] == combo[k];
                            available_texts.lemma_filter_contains(other_than(item@), a);
                        }
                    }
                    if combo.len() < new_texts.len() + (number_to_choose - 1) {
                        assert forall|k: int| 0 <= k < other_texts.len() implies combo.contains(
                            #[trigger] other_texts[k],
                        ) by {
                            lemma_filtered_came_from(available_texts, other_than(item@), k);
                            let a = choose|a: int|
                                0 <= a < available_texts.len() && available_texts[a]
                                    == other_texts[k];
                            assert(combo.contains(available_texts[a]));
                        }
                    }
                    assert(is_choice(combo, new_texts, other_texts, number_to_choose - 1));
                }
            }
        }
        proof {
            assert forall|e: int| old(combo_list)@.len() <= e < combo_list@.len() implies is_choice(
                #[trigger] combos_of(combo_list@)[e],
                chosen_texts,
                available_texts,
                number_to_choose as int,
            ) by {
                let c = combos_of(combo_list@)[e];
                if e < before_len {
                    assert(c == before[e]);
                } else {
                    assert(is_choice(c, new_texts, other_texts, number_to_choose - 1));
                    assert forall|k: int| 0 <= k < chosen_texts.len() implies c.contains(
                        #[trigger] chosen_texts[k],
                    ) by {
                        assert(chosen_texts[k] == chosen@[k]@);
                        let t = chosen_texts[k];
                        assert(new_texts.contains(t));
                        let a = choose|a: int| 0 <= a < new_texts.len() && new_texts[a] == t;
                        assert(c.contains(new_texts[a]));
                    }
                    assert forall|k: int| 0 <= k < c.len() implies chosen_texts.contains(
                        #[trigger] c[k],
                    ) || available_texts.contains(c[k]) by {
                        if new_texts.contains(c[k]) {
                            let a = choose|a: int| 0 <= a < new_texts.len() && new_texts[a] == c[k];
                            assert(new_chosen@[a]@ == c[k]);
                            if c[k] == item@ {
                                assert(available_texts.contains(item@));
                            }
                        } else {
                            assert(other_texts.contains(c[k]));
                            let a = choose|a: int|
                                0 <= a < other_texts.len() && other_texts[a] == c[k];
                            lemma_filtered_came_from(available_texts, other_than(item@), a);
                        }
                    }
                    if c.len() < chosen_texts.len() + number_to_choose {
                        assert forall|k: int| 0 <= k < available_texts.len() implies c.contains(
                            #[trigger] available_texts[k],
                        ) by {
                            let t = available_texts[k];
                            if t == item@ {
                                let a = choose|a: int|
                                    0 <= a < new_texts.len() && new_texts[a] == item@;
                                assert(c.contains(new_texts[a]));
                            } else {
                                available_texts.lemma_filter_contains(other_than(item@), k);
                                let a = choose|a: int|
                                    0 <= a < other_texts.len() && other_texts[a] == t;
                                assert(c.contains(other_texts[a]));
                            }
                        }
                    }
                }
            }
        }
        index += 1;
    }
    proof {
        assert forall|combo: Seq<Seq<char>>| #[trigger]
            is_choice(combo, chosen_texts, available_texts, number_to_choose as int)
            implies combos_of(combo_list@).contains(combo) by {
            assert forall|k: int| 0 <= k < available_texts.len() implies !chosen_texts.contains(
                #[trigger] available_texts[k],
            ) by {
                assert(available_texts[k] == available@[k]@);
            }
            let i = lemma_choice_takes_an_item(
                combo,
                chosen_texts,
                available_texts,
                number_to_choose as int,
            );
            assert(combo.contains(available_texts[i]));
        }
    }
}

/// What a filter keeps stood in what it was given.
pub proof fn lemma_filtered_came_from<A>(s: Seq<A>, keep: spec_fn(A) -> bool, k: int)
    requires
        0 <= k < s.filter(keep).len(),
    ensures
        s.contains(s.filter(keep)[k]),
    decreases s.len(),
{
    reveal(Seq::filter);
    if s.len() > 0 {
        let rest = s.drop_last();
        if keep(s.last()) && k == rest.filter(keep).len() {
            assert(s[s.len() - 1] == s.filter(keep)[k]);
        } else {
            lemma_filtered_came_from(rest, keep, k);
            let e = choose|e: int| 0 <= e < rest.len() && rest[e] == rest.filter(keep)[k];
            assert(s[e] == s.filter(keep)[k]);
        }
    }
}

/// The ways of choosing `number` of the items, or all of them if there are fewer: each way
/// once, as a sorted list without repeats.
pub fn get_combos(items: Vec<String>, number: usize) -> (combo_list: Vec<Vec<String>>)
    ensures
        combos_of(combo_list@).no_duplicates(),
        combo_list@.len() > 0,
        forall|e: int|
            0 <= e < combo_list@.len() ==> is_choice(
                #[trigger] combos_of(combo_list@)[e],
                Seq::<Seq<char>>::empty(),
                texts_of(items@),
                number as int,
            ),
        forall|combo: Seq<Seq<char>>| #[trigger]
            is_choice(combo, Seq::<Seq<char>>::empty(), texts_of(items@), number as int)
                ==> combos_of(combo_list@).contains(combo),
{
    let mut combo_list: Vec<Vec<String>> = Vec::new();
    let chosen: Vec<String> = Vec::new();
    assert(texts_of(chosen@) =~= Seq::<Seq<char>>::empty());
    explore(&items, &chosen, number, &mut combo_list);
    combo_list
}

/// A copy of the texts.
fn copy_of(items: &Vec<String>) -> (out: Vec<String>)
    ensures
        texts_of(out@) == texts_of(items@),
{
    let mut out: Vec<String> = Vec::new();
    let mut k: usize = 0;
    while k < items.len()
        invariant
            k <= items@.len(),
            out@.len() == k,
            forall|e: int| 0 <= e < k ==> out@[e]@ == items@[e]@,
        decreases items@.len() - k,
    {
        out.push(items[k].clone());
        k += 1;
    }
    assert(texts_of(out@) =~= texts_of(items@));
    out
}

/// `rest` is what stays of the items when some choice of `number` of them is left out.
pub open spec fn is_rest_of_choice(rest: Seq<Seq<char>>, items: Seq<Seq<char>>, number: int) -> bool {
    exists|left_out: Seq<Seq<char>>| #[trigger]
        is_choice(left_out, Seq::<Seq<char>>::empty(), items, number) && rest == items.filter(
            not_among(left_out),
        )
}

/// The combinations of `number` of the items, as they are listed.  Where `number` is not
/// below the number of items, the items themselves are the one combination.  Where it is
/// below half of it, the combinations are chosen.  Otherwise the items left out are chosen,
/// and each combination is what stays of the items, in their order.
pub open spec fn lists_combinations(
    listed: Seq<Seq<Seq<char>>>,
    items: Seq<Seq<char>>,
    number: int,
) -> bool {
    if number >= items.len() {
        listed == seq![items]
    } else if number < (items.len() + 1) / 2 {
        &&& listed.no_duplicates()
        &&& forall|combo: Seq<Seq<char>>|
            listed.contains(combo) <==> #[trigger] is_choice(
                combo,
                Seq::<Seq<char>>::empty(),
                items,
                number,
            )
    } else {
        &&& forall|k: int|
            0 <= k < listed.len() ==> is_rest_of_choice(
                #[trigger] listed[k],
                items,
                items.len() - number,
            )
        &&& forall|left_out: Seq<Seq<char>>| #[trigger]
            is_choice(left_out, Seq::<Seq<char>>::empty(), items, items.len() - number)
                ==> listed.contains(items.filter(not_among(left_out)))
    }
}

/// Lists the combinations of `number` of the items.
pub fn list_combinations(item_list: Vec<String>, number: usize) -> (combos: Vec<Vec<String>>)
    ensures
        lists_combinations(combos_of(combos@), texts_of(item_list@), number as int),
{
    let ghost items = texts_of(item_list@);
    let count = item_list.len();
    assert(count / 2 + count % 2 == (count + 1) / 2);
    if number >= item_list.len() {
        let mut combos: Vec<Vec<String>> = Vec::new();
        combos.push(item_list);
        assert(combos_of(combos@) =~= seq![items]);
        combos
    } else if number < item_list.len() / 2 + item_list.len() % 2 {
        let combos = get_combos(item_list, number);
        proof {
            assert(items.len() == count);
            assert(number < (items.len() + 1) / 2);
            let listed = combos_of(combos@);
            assert forall|combo: Seq<Seq<char>>| listed.contains(combo) <==> #[trigger] is_choice(
                combo,
                Seq::<Seq<char>>::empty(),
                items,
                number as int,
            ) by {
                if listed.contains(combo) {
                    let e = choose|e: int| 0 <= e < listed.len() && listed[e] == combo;
                    assert(is_choice(listed[e], Seq::<Seq<char>>::empty(), items, number as int));
                }
            }
        }
        combos
    } else {
        assert(items.len() == count);
        assert(!(number < (items.len() + 1) / 2));
        let compliment_number = item_list.len() - number;
        let inverted_combos = get_combos(copy_of(&item_list), compliment_number);
        let ghost inverted = combos_of(inverted_combos@);
        let mut combos: Vec<Vec<String>> = Vec::new();
        let mut k: usize = 0;
        while k < inverted_combos.len()
            invariant
                k <= inverted_combos@.len(),
                inverted == combos_of(inverted_combos@),
                items == texts_of(item_list@),
                combos@.len() == k,
                forall|e: int|
                    0 <= e < k ==> (#[trigger] combos_of(combos@)[e]) == items.filter(
                        not_among(inverted[e]),
                    ),
            decreases inverted_combos@.len() - k,
        {
            let ghost before = combos_of(combos@);
            let rest = get_combo_compliment(copy_of(&item_list), copy_of(&inverted_combos[k]));
            combos.push(rest);
            proof {
                assert(inverted[k as int] == texts_of(inverted_combos@[k as int]@));
                assert forall|e: int| 0 <= e < k + 1 implies (#[trigger] combos_of(combos@)[e])
                    == items.filter(not_among(inverted[e])) by {
                    if e < k {
                        assert(combos_of(combos@)[e] == before[e]);
                    }
                }
            }
            k += 1;
        }
        proof {
            let listed = combos_of(combos@);
            assert forall|e: int| 0 <= e < listed.len() implies is_rest_of_choice(
                #[trigger] listed[e],
                items,
                items.len() - number,
            ) by {
                assert(is_choice(
                    inverted[e],
                    Seq::<Seq<char>>::empty(),
                    items,
                    items.len() - number,
                ));
            }
            assert forall|left_out: Seq<Seq<char>>| #[trigger]
                is_choice(left_out, Seq::<Seq<char>>::empty(), items, items.len() - number)
                implies listed.contains(items.filter(not_among(left_out))) by {
                assert(inverted.contains(left_out));
                let e = choose|e: int| 0 <= e < inverted.len() && inverted[e] == left_out;
                assert(listed[e] == items.filter(not_among(left_out)));
            }
        }
        combos
    }
}

} // verus!
