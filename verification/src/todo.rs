use crate::text::{
    join_texts, joined, lemma_text_less_asymmetric, lemma_text_not_less_transitive, push_text,
    split, split_text, string_of, text_before, text_less, texts_of, trim_text, trimmed,
};
use chrono::NaiveDateTime;
use vstd::prelude::*;

verus! {

/// A thing to do.
#[derive(Debug)]
pub struct TodoEntry {
    /// When it was written down, as `YYYYmmddHHMM`.
    pub create_date: String,
    /// When it is due, as `YYYYmmddHHMM`.
    pub due_date: String,
    /// What is to be done.
    pub task_description: String,
}

/// What an entry holds.
pub struct TodoView {
    pub create_date: Seq<char>,
    pub due_date: Seq<char>,
    pub task_description: Seq<char>,
}

impl View for TodoEntry {
    type V = TodoView;

    open spec fn view(&self) -> TodoView {
        TodoView {
            create_date: self.create_date@,
            due_date: self.due_date@,
            task_description: self.task_description@,
        }
    }
}

/// What a sequence of entries holds.
pub open spec fn entries_of(todos: Seq<TodoEntry>) -> Seq<TodoView> {
    Seq::new(todos.len(), |k: int| todos[k]@)
}

/// The row that stands for an entry in the file.
pub open spec fn row_of(todo: TodoView) -> Seq<char> {
    todo.create_date + "|>"@ + todo.task_description + "|>"@ + todo.due_date
}

/// The entry that a row of the file stands for, if it has three parts.
pub open spec fn entry_of_row(row: Seq<char>) -> Option<TodoView> {
    let pieces = split(row, "|>"@);
    if pieces.len() == 3 {
        Some(TodoView { create_date: pieces[0], task_description: pieces[1], due_date: pieces[2] })
    } else {
        None
    }
}

/// How an entry is shown.
pub open spec fn shown(todo: TodoView) -> Seq<char> {
    "("@ + todo.create_date + ")\n"@ + todo.task_description + "\n[Due: "@ + todo.due_date
        + "]\n===\n"@
}

impl TodoEntry {
    /// The row that stands for the entry in the file.
    pub fn make_row(&self) -> (row: String)
        ensures
            row@ == row_of(self@),
    {
        let mut out: Vec<char> = Vec::new();
        push_text(&mut out, self.create_date.as_str());
        push_text(&mut out, "|>");
        push_text(&mut out, self.task_description.as_str());
        push_text(&mut out, "|>");
        push_text(&mut out, self.due_date.as_str());
        string_of(&out)
    }

    /// Reads an entry off a row of the file; none if the row has not three parts.
    pub fn from_row(todo_row: String) -> (entry: Option<TodoEntry>)
        ensures
            match entry {
                Some(todo) => entry_of_row(todo_row@) == Some(todo@),
                None => entry_of_row(todo_row@) is None,
            },
    {
        proof {
            reveal_strlit("|>");
        }
        let pieces = split_text(todo_row.as_str(), "|>");
        if pieces.len() != 3 {
            None
        } else {
            assert(texts_of(pieces@)[0] == pieces@[0]@);
            assert(texts_of(pieces@)[1] == pieces@[1]@);
            assert(texts_of(pieces@)[2] == pieces@[2]@);
            Some(
                TodoEntry {
                    create_date: pieces[0].clone(),
                    task_description: pieces[1].clone(),
                    due_date: pieces[2].clone(),
                },
            )
        }
    }

    /// How the entry is shown.
    pub fn display_text(&self) -> (text: String)
        ensures
            text@ == shown(self@),
    {
        let mut out: Vec<char> = Vec::new();
        push_text(&mut out, "(");
        push_text(&mut out, self.create_date.as_str());
        push_text(&mut out, ")\n");
        push_text(&mut out, self.task_description.as_str());
        push_text(&mut out, "\n[Due: ");
        push_text(&mut out, self.due_date.as_str());
        push_text(&mut out, "]\n===\n");
        string_of(&out)
    }
}

/// The rows of the first `n` entries.
pub open spec fn rows_of(todos: Seq<TodoView>, n: int) -> Seq<Seq<char>>
    decreases n,
{
    if n <= 0 {
        Seq::<Seq<char>>::empty()
    } else {
        rows_of(todos, n - 1).push(row_of(todos[n - 1]))
    }
}

/// The text of the file that holds the entries: their rows, one to a line.
pub fn todos_to_print(todos: Vec<TodoEntry>) -> (text: String)
    ensures
        text@ == joined(rows_of(entries_of(todos@), todos@.len() as int), "\n"@),
{
    let mut rows: Vec<String> = Vec::new();
    let mut k: usize = 0;
    assert(texts_of(rows@) =~= rows_of(entries_of(todos@), 0));
    while k < todos.len()
        invariant
            k <= todos@.len(),
            texts_of(rows@) == rows_of(entries_of(todos@), k as int),
        decreases todos@.len() - k,
    {
        let ghost before = texts_of(rows@);
        rows.push(todos[k].make_row());
        assert(entries_of(todos@)[k as int] == todos@[k as int]@);
        assert(texts_of(rows@) =~= before.push(row_of(todos@[k as int]@)));
        k += 1;
    }
    join_texts(&rows, "\n")
}

/// The entries that the first `n` rows stand for; a row is trimmed before it is read, and
/// a row that stands for no entry is passed over.
pub open spec fn entries_of_rows(rows: Seq<Seq<char>>, n: int) -> Seq<TodoView>
    decreases n,
{
    if n <= 0 {
        Seq::<TodoView>::empty()
    } else {
        match entry_of_row(trimmed(rows[n - 1])) {
            Some(todo) => entries_of_rows(rows, n - 1).push(todo),
            None => entries_of_rows(rows, n - 1),
        }
    }
}

/// Reads the entries off the text of the file, one row to a line.
pub fn parse_todos(contents: &str) -> (todos: Vec<TodoEntry>)
    ensures
        entries_of(todos@) == entries_of_rows(
            split(contents@, "\n"@),
            split(contents@, "\n"@).len() as int,
        ),
{
    proof {
        reveal_strlit("\n");
    }
    let rows = split_text(contents, "\n");
    let mut todos: Vec<TodoEntry> = Vec::new();
    let mut k: usize = 0;
    assert(entries_of(todos@) =~= entries_of_rows(texts_of(rows@), 0));
    while k < rows.len()
        invariant
            k <= rows@.len(),
            entries_of(todos@) == entries_of_rows(texts_of(rows@), k as int),
        decreases rows@.len() - k,
    {
        let ghost before = entries_of(todos@);
        assert(texts_of(rows@)[k as int] == rows@[k as int]@);
        match TodoEntry::from_row(trim_text(rows[k].as_str())) {
            Some(todo) => {
                todos.push(todo);
                assert(entries_of(todos@) =~= before.push(todo@));
            },
            None => {},
        }
        k += 1;
    }
    todos
}

/// What is shown for the entries: each as it is shown, with an empty line between two, or
/// a note that there are none.
pub open spec fn shown_all(todos: Seq<TodoView>) -> Seq<char> {
    if todos.len() == 0 {
        "No Todo's to show."@
    } else {
        joined(Seq::new(todos.len(), |k: int| shown(todos[k])), "\n"@)
    }
}

/// What is shown for the entries.
pub fn show_text(todos: &Vec<TodoEntry>) -> (text: String)
    ensures
        text@ == shown_all(entries_of(todos@)),
{
    if todos.len() == 0 {
        return "No Todo's to show.".to_owned();
    }
    let mut lines: Vec<String> = Vec::new();
    let mut k: usize = 0;
    while k < todos.len()
        invariant
            k <= todos@.len(),
            lines@.len() == k,
            forall|e: int| 0 <= e < k ==> lines@[e]@ == shown(todos@[e]@),
        decreases todos@.len() - k,
    {
        lines.push(todos[k].display_text());
        k += 1;
    }
    assert(texts_of(lines@) =~= Seq::new(
        entries_of(todos@).len(),
        |k: int| shown(entries_of(todos@)[k]),
    ));
    join_texts(&lines, "\n")
}

/// `todo` put into a list that is sorted by due date, behind every entry that is due no
/// later.
pub open spec fn inserted_by_due(sorted: Seq<TodoView>, todo: TodoView) -> Seq<TodoView>
    decreases sorted.len(),
{
    if sorted.len() == 0 {
        seq![todo]
    } else if text_less(todo.due_date, sorted.last().due_date) {
        inserted_by_due(sorted.drop_last(), todo).push(sorted.last())
    } else {
        sorted.push(todo)
    }
}

/// The first `n` entries sorted by due date; entries that are due together keep their order.
pub open spec fn sorted_by_due(todos: Seq<TodoView>, n: int) -> Seq<TodoView>
    decreases n,
{
    if n <= 0 {
        Seq::<TodoView>::empty()
    } else {
        inserted_by_due(sorted_by_due(todos, n - 1), todos[n - 1])
    }
}

/// No entry of the list is due before one that stands before it.
pub open spec fn ordered_by_due(todos: Seq<TodoView>) -> bool {
    forall|i: int, j: int|
        0 <= i < j < todos.len() ==> !text_less(todos[j].due_date, todos[i].due_date)
}

/// Puts `todo` into a list that is sorted by due date, behind every entry that is due no
/// later.
pub fn insert_by_due_date(sorted: &mut Vec<TodoEntry>, todo: TodoEntry)
    ensures
        entries_of(final(sorted)@) == inserted_by_due(entries_of(old(sorted)@), todo@),
{
    let mut place: usize = sorted.len();
    let ghost all = entries_of(sorted@);
    assert(all.take(place as int) =~= all);
    assert(all.skip(place as int) =~= Seq::<TodoView>::empty());
    while place > 0 && text_before(todo.due_date.as_str(), sorted[place - 1].due_date.as_str())
        invariant
            place <= sorted@.len(),
            sorted@ == old(sorted)@,
            all == entries_of(sorted@),
            inserted_by_due(all, todo@) == inserted_by_due(all.take(place as int), todo@) + all.skip(
                place as int,
            ),
        decreases place,
    {
        proof {
            let head = all.take(place as int);
            assert(head.last() == all[place - 1]);
            assert(all[place - 1] == sorted@[place - 1]@);
            assert(head.drop_last() =~= all.take(place - 1));
            assert(inserted_by_due(all.take(place - 1), todo@).push(head.last()) + all.skip(
                place as int,
            ) =~= inserted_by_due(all.take(place - 1), todo@) + all.skip(place - 1));
        }
        place -= 1;
    }
    proof {
        let head = all.take(place as int);
        if place > 0 {
            assert(head.last() == all[place - 1]);
            assert(all[place - 1] == sorted@[place - 1]@);
        }
        assert(inserted_by_due(head, todo@) == head.push(todo@));
    }
    sorted.insert(place, todo);
    assert(entries_of(sorted@) =~= all.take(place as int).push(todo@) + all.skip(place as int));
}

/// Sorts the entries by due date; entries that are due together keep their order.
pub fn sort_by_due_date(todos: Vec<TodoEntry>) -> (sorted: Vec<TodoEntry>)
    ensures
        entries_of(sorted@) == sorted_by_due(entries_of(todos@), todos@.len() as int),
{
    let mut sorted: Vec<TodoEntry> = Vec::new();
    let mut rest = todos;
    let ghost all = entries_of(todos@);
    let mut taken: Vec<TodoEntry> = Vec::new();
    // The entries are moved out from the back, so they are turned round first.
    while rest.len() > 0
        invariant
            rest@.len() + taken@.len() == all.len(),
            entries_of(rest@) == all.take(rest@.len() as int),
            entries_of(taken@) == all.skip(rest@.len() as int).reverse(),
        decreases rest@.len(),
    {
        let ghost n = rest@.len() as int;
        let ghost before = entries_of(taken@);
        let ghost last = entries_of(rest@)[n - 1];
        let todo = rest.pop().unwrap();
        taken.push(todo);
        proof {
            assert(last == all.take(n)[n - 1]);
            assert(entries_of(rest@) =~= all.take(n - 1));
            assert(entries_of(taken@) =~= before.push(all[n - 1]));
            assert(entries_of(taken@) =~= all.skip(n - 1).reverse());
        }
    }
    assert(all.skip(0) =~= all);
    assert(entries_of(sorted@) =~= sorted_by_due(all, 0));
    let ghost turned = entries_of(taken@);
    while taken.len() > 0
        invariant
            turned == all.reverse(),
            taken@.len() <= all.len(),
            entries_of(taken@) == turned.take(taken@.len() as int),
            entries_of(sorted@) == sorted_by_due(all, all.len() - taken@.len()),
        decreases taken@.len(),
    {
        let ghost n = taken@.len() as int;
        let ghost last = entries_of(taken@)[n - 1];
        let todo = taken.pop().unwrap();
        proof {
            assert(last == turned.take(n)[n - 1]);
            assert(turned[n - 1] == all[all.len() - n]);
            assert(entries_of(taken@) =~= turned.take(n - 1));
        }
        insert_by_due_date(&mut sorted, todo);
    }
    sorted
}

/// Inserting into an ordered list gives an ordered list with one more entry.
pub proof fn lemma_inserted_is_ordered(sorted: Seq<TodoView>, todo: TodoView)
    requires
        ordered_by_due(sorted),
    ensures
        ordered_by_due(inserted_by_due(sorted, todo)),
        inserted_by_due(sorted, todo).len() == sorted.len() + 1,
        inserted_by_due(sorted, todo).to_multiset() == sorted.to_multiset().insert(todo),
        forall|k: int|
            0 <= k < inserted_by_due(sorted, todo).len() ==> (#[trigger] inserted_by_due(
                sorted,
                todo,
            )[k] == todo || sorted.contains(inserted_by_due(sorted, todo)[k])),
    decreases sorted.len(),
{
    broadcast use vstd::seq_lib::group_to_multiset_ensures;

    let out = inserted_by_due(sorted, todo);
    if sorted.len() == 0 {
        assert(out =~= Seq::<TodoView>::empty().push(todo));
    } else if text_less(todo.due_date, sorted.last().due_date) {
        let rest = sorted.drop_last();
        assert(ordered_by_due(rest)) by {
            assert forall|i: int, j: int| 0 <= i < j < rest.len() implies !text_less(
                rest[j].due_date,
                rest[i].due_date,
            ) by {
                assert(rest[i] == sorted[i] && rest[j] == sorted[j]);
            }
        }
        lemma_inserted_is_ordered(rest, todo);
        let inner = inserted_by_due(rest, todo);
        assert(sorted =~= rest.push(sorted.last()));
        assert forall|i: int, j: int| 0 <= i < j < out.len() implies !text_less(
            out[j].due_date,
            out[i].due_date,
        ) by {
            if j < inner.len() {
                assert(out[i] == inner[i] && out[j] == inner[j]);
            } else {
                assert(out[i] == inner[i]);
                if inner[i] == todo {
                    lemma_text_less_asymmetric(todo.due_date, sorted.last().due_date);
                } else {
                    assert(rest.contains(inner[i]));
                    let e = choose|e: int| 0 <= e < rest.len() && rest[e] == inner[i];
                    assert(sorted[e] == inner[i]);
                }
            }
        }
        assert forall|k: int| 0 <= k < out.len() implies (#[trigger] out[k] == todo
            || sorted.contains(out[k])) by {
            if k < inner.len() {
                assert(out[k] == inner[k]);
                if inner[k] != todo {
                    let e = choose|e: int| 0 <= e < rest.len() && rest[e] == inner[k];
                    assert(sorted[e] == inner[k]);
                }
            } else {
                assert(out[k] == sorted[sorted.len() - 1]);
            }
        }
    } else {
        assert forall|i: int, j: int| 0 <= i < j < out.len() implies !text_less(
            out[j].due_date,
            out[i].due_date,
        ) by {
            if j < sorted.len() {
                assert(out[i] == sorted[i] && out[j] == sorted[j]);
            } else {
                assert(out[i] == sorted[i]);
                if i < sorted.len() - 1 {
                    lemma_text_not_less_transitive(
                        sorted[i].due_date,
                        sorted.last().due_date,
                        todo.due_date,
                    );
                }
            }
        }
        assert forall|k: int| 0 <= k < out.len() implies (#[trigger] out[k] == todo
            || sorted.contains(out[k])) by {
            if k < sorted.len() {
                assert(out[k] == sorted[k]);
            }
        }
    }
}

/// Sorting by due date orders the entries and keeps each of them.
pub proof fn lemma_sorted_is_ordered(todos: Seq<TodoView>, n: int)
    requires
        0 <= n <= todos.len(),
    ensures
        ordered_by_due(sorted_by_due(todos, n)),
        sorted_by_due(todos, n).to_multiset() == todos.take(n).to_multiset(),
    decreases n,
{
    broadcast use vstd::seq_lib::group_to_multiset_ensures;

    if n > 0 {
        lemma_sorted_is_ordered(todos, n - 1);
        lemma_inserted_is_ordered(sorted_by_due(todos, n - 1), todos[n - 1]);
        assert(todos.take(n) =~= todos.take(n - 1).push(todos[n - 1]));
    } else {
        assert(todos.take(0) =~= Seq::<TodoView>::empty());
        assert(sorted_by_due(todos, 0).to_multiset() =~= todos.take(0).to_multiset());
    }
}

/// The sum of two numbers.
pub fn add(left: usize, right: usize) -> (sum: usize)
    requires
        left + right <= usize::MAX,
    ensures
        sum == left + right,
{
    left + right
}

/// The moment that a due date names, in seconds, as `chrono` reads `YYYYmmddHHMM`; none
/// where the text is no such date.
pub uninterp spec fn due_moment(due_date: Seq<char>) -> Option<i64>;

/// `chrono::NaiveDateTime::parse_from_str` with the format `%Y%m%d%H%M`, and the seconds
/// that the moment read lies from the start of 1970.  The contract only names the result.
#[verifier::external_body]
fn read_due_date(due_date: &str) -> (moment: Option<i64>)
    ensures
        moment == due_moment(due_date@),
{
    match NaiveDateTime::parse_from_str(due_date, "%Y%m%d%H%M") {
        Ok(moment) => Some(moment.and_utc().timestamp()),
        Err(_) => None,
    }
}

/// Whether a moment lies before now.
pub fn is_past(moment: i64, now: i64) -> (past: bool)
    ensures
        past == (moment < now),
{
    moment < now
}

/// Whether an entry is overdue at the moment `now`; none where its due date cannot be read.
pub fn is_overdue(todo: &TodoEntry, now: i64) -> (overdue: Option<bool>)
    ensures
        overdue == match due_moment(todo.due_date@) {
            Some(moment) => Some(moment < now),
            None => None,
        },
{
    match read_due_date(todo.due_date.as_str()) {
        Some(moment) => Some(is_past(moment, now)),
        None => None,
    }
}

/// Whether an overdue entry is kept after the answer to "was it completed?": it is dropped
/// only on a plain `y`.
pub fn keep_after_answer(response: &str) -> (keep: bool)
    ensures
        keep == (trimmed(response@) != "y"@),
{
    let answer = trim_text(response);
    !(answer == "y".to_owned())
}

} // verus!
