use crate::sets::TextSet;
use crate::text::{
    lowercase, lowercase_of, push_text, split, split_text, string_of, text_starts_with, texts_of,
    trim_text, trimmed, starts_with,
};
use vstd::hash_map::StringHashMap;
use vstd::prelude::*;

verus! {

/// Which Slack id belongs to which name.  `names` holds the names in the order in which
/// they first came in, `ids` the id of each.
pub struct IdMapping {
    pub names: TextSet,
    pub ids: StringHashMap<String>,
}

impl IdMapping {
    /// Every name has an id, and only names have one.
    pub open spec fn wf(&self) -> bool {
        self.names.wf() && self.names@ == self.ids@.dom()
    }

    /// The id of each name.
    pub open spec fn entries(&self) -> Map<Seq<char>, Seq<char>> {
        Map::new(|name: Seq<char>| self.ids@.contains_key(name), |name: Seq<char>| self.ids@[name]@)
    }

    /// A mapping without names.
    pub fn new() -> (mapping: Self)
        ensures
            mapping.wf(),
            mapping.entries() == Map::<Seq<char>, Seq<char>>::empty(),
    {
        let mapping = IdMapping { names: TextSet::new(), ids: StringHashMap::new() };
        assert(mapping.names@ =~= mapping.ids@.dom());
        assert(mapping.entries() =~= Map::<Seq<char>, Seq<char>>::empty());
        mapping
    }

    /// Gives `name` the id `id`, in place of the one it had, if any.
    pub fn insert(&mut self, name: String, id: String)
        requires
            old(self).wf(),
        ensures
            final(self).wf(),
            final(self).entries() == old(self).entries().insert(name@, id@),
    {
        self.names.insert(name.clone());
        self.ids.insert(name, id);
        assert(self.names@ =~= self.ids@.dom());
        assert(self.entries() =~= old(self).entries().insert(name@, id@));
    }

    /// The id of `name`, if it has one.
    pub fn get(&self, name: &str) -> (id: Option<String>)
        ensures
            match id {
                Some(text) => self.entries().contains_key(name@) && self.entries()[name@]
                    == text@,
                None => !self.entries().contains_key(name@),
            },
    {
        match self.ids.get(name) {
            Some(id) => Some(id.clone()),
            None => None,
        }
    }
}

/// A line without the carriage return at its end, if it has one.
pub open spec fn without_return(line: Seq<char>) -> Seq<char> {
    if line.len() > 0 && line.last() == '\r' {
        line.drop_last()
    } else {
        line
    }
}

/// The lines of a text.  A line ends with a line feed, which may follow a carriage return;
/// neither belongs to the line.  What stands behind the last line feed is a line of its
/// own unless it is empty.
pub open spec fn lines_of(text: Seq<char>) -> Seq<Seq<char>> {
    let pieces = split(text, "\n"@);
    let ended = Seq::new((pieces.len() - 1) as nat, |k: int| without_return(pieces[k]));
    if pieces.last().len() == 0 {
        ended
    } else {
        ended.push(pieces.last())
    }
}

/// Takes a text apart into its lines.
pub fn text_lines(text: &str) -> (lines: Vec<String>)
    ensures
        texts_of(lines@) == lines_of(text@),
{
    proof {
        reveal_strlit("\n");
    }
    let pieces = split_text(text, "\n");
    let ghost all = texts_of(pieces@);
    let mut lines: Vec<String> = Vec::new();
    let mut k: usize = 0;
    let count = pieces.len() - 1;
    while k < count
        invariant
            count + 1 == pieces@.len(),
            k <= count,
            all == texts_of(pieces@),
            lines@.len() == k,
            forall|e: int| 0 <= e < k ==> lines@[e]@ == without_return(all[e]),
        decreases pieces@.len() - k,
    {
        let chars = crate::text::chars_of(pieces[k].as_str());
        assert(all[k as int] == pieces@[k as int]@);
        let n = chars.len();
        if n > 0 && chars[n - 1] == '\r' {
            lines.push(crate::text::piece_of(&chars, 0, n - 1));
            assert(chars@.subrange(0, n - 1) =~= chars@.drop_last());
        } else {
            lines.push(pieces[k].clone());
        }
        k += 1;
    }
    let last = &pieces[pieces.len() - 1];
    assert(all[pieces@.len() - 1] == last@);
    if !last.as_str().is_empty() {
        lines.push(last.clone());
    }
    assert(texts_of(lines@) =~= lines_of(text@));
    lines
}

/// The mapping after the first `n` lines: a line of two parts with a colon between gives
/// the first part, a name, the second as its id; any other line is passed over.
pub open spec fn loaded(lines: Seq<Seq<char>>, n: int) -> Map<Seq<char>, Seq<char>>
    decreases n,
{
    if n <= 0 {
        Map::<Seq<char>, Seq<char>>::empty()
    } else {
        let parts = split(lines[n - 1], ":"@);
        if parts.len() == 2 {
            loaded(lines, n - 1).insert(parts[0], parts[1])
        } else {
            loaded(lines, n - 1)
        }
    }
}

/// Reads the mapping off the text of its file, one `name:id` to a line.
pub fn load_slack_id_mapping(contents: &str) -> (mapping: IdMapping)
    ensures
        mapping.wf(),
        mapping.entries() == loaded(lines_of(contents@), lines_of(contents@).len() as int),
{
    proof {
        reveal_strlit(":");
    }
    let lines = text_lines(contents);
    let mut mapping = IdMapping::new();
    let mut k: usize = 0;
    while k < lines.len()
        invariant
            k <= lines@.len(),
            mapping.wf(),
            ":"@.len() > 0,
            mapping.entries() == loaded(texts_of(lines@), k as int),
        decreases lines@.len() - k,
    {
        assert(texts_of(lines@)[k as int] == lines@[k as int]@);
        let parts = split_text(lines[k].as_str(), ":");
        if parts.len() == 2 {
            assert(texts_of(parts@)[0] == parts@[0]@ && texts_of(parts@)[1] == parts@[1]@);
            mapping.insert(parts[0].clone(), parts[1].clone());
        }
        k += 1;
    }
    mapping
}

/// The text of the file that holds the names given with their ids: `name:id`, each with a
/// line feed behind it.
pub open spec fn saved(names: Seq<Seq<char>>, ids: Map<Seq<char>, Seq<char>>, n: int) -> Seq<char>
    decreases n,
{
    if n <= 0 {
        Seq::<char>::empty()
    } else {
        saved(names, ids, n - 1) + names[n - 1] + ":"@ + ids[names[n - 1]] + "\n"@
    }
}

/// Writes the mapping as the text of its file, the names in the order in which they first
/// came in.
pub fn mapping_text(mapping: &IdMapping) -> (text: String)
    requires
        mapping.wf(),
    ensures
        text@ == saved(
            texts_of(mapping.names.items@),
            mapping.entries(),
            mapping.names.items@.len() as int,
        ),
{
    let mut out: Vec<char> = Vec::new();
    let mut k: usize = 0;
    while k < mapping.names.items.len()
        invariant
            k <= mapping.names.items@.len(),
            mapping.wf(),
            out@ == saved(texts_of(mapping.names.items@), mapping.entries(), k as int),
        decreases mapping.names.items@.len() - k,
    {
        let name = &mapping.names.items[k];
        assert(texts_of(mapping.names.items@)[k as int] == name@);
        assert(mapping.names@.contains(name@));
        let ghost before = out@;
        push_text(&mut out, name.as_str());
        push_text(&mut out, ":");
        match mapping.ids.get(name.as_str()) {
            Some(id) => push_text(&mut out, id.as_str()),
            None => {},
        }
        push_text(&mut out, "\n");
        assert(out@ =~= before + name@ + ":"@ + mapping.entries()[name@] + "\n"@);
        k += 1;
    }
    string_of(&out)
}

/// What one pair of an update does to the mapping: a pair of two trimmed parts with a
/// colon between, the second beginning with `@`, gives the first part the second as its
/// id; any other pair leaves the mapping as it is.
pub open spec fn updated_by(before: Map<Seq<char>, Seq<char>>, pair: Seq<char>) -> Map<
    Seq<char>,
    Seq<char>,
> {
    let parts = split(trimmed(pair), ":"@);
    if parts.len() == 2 && starts_with(trimmed(parts[1]), "@"@) {
        before.insert(trimmed(parts[0]), trimmed(parts[1]))
    } else {
        before
    }
}

/// The ids that are refused: those of pairs with two parts whose second does not begin
/// with `@`.
pub open spec fn refused_by(pair: Seq<char>) -> Option<Seq<char>> {
    let parts = split(trimmed(pair), ":"@);
    if parts.len() == 2 && !starts_with(trimmed(parts[1]), "@"@) {
        Some(trimmed(parts[1]))
    } else {
        None
    }
}

/// The mapping after the first `n` pairs of an update.
pub open spec fn updated(before: Map<Seq<char>, Seq<char>>, pairs: Seq<Seq<char>>, n: int) -> Map<
    Seq<char>,
    Seq<char>,
>
    decreases n,
{
    if n <= 0 {
        before
    } else {
        updated_by(updated(before, pairs, n - 1), pairs[n - 1])
    }
}

/// The ids that the first `n` pairs of an update give and that are refused.
pub open spec fn refused(pairs: Seq<Seq<char>>, n: int) -> Seq<Seq<char>>
    decreases n,
{
    if n <= 0 {
        Seq::<Seq<char>>::empty()
    } else {
        match refused_by(pairs[n - 1]) {
            Some(id) => refused(pairs, n - 1).push(id),
            None => refused(pairs, n - 1),
        }
    }
}

/// Takes an update of the form `name:@id,name:@id` into the mapping and hands out the ids
/// that were refused because they do not begin with `@`.
pub fn update_slack_id_mapping(mapping: &mut IdMapping, slack_ids_to_update: &str) -> (invalid: Vec<
    String,
>)
    requires
        old(mapping).wf(),
    ensures
        final(mapping).wf(),
        final(mapping).entries() == updated(
            old(mapping).entries(),
            split(slack_ids_to_update@, ","@),
            split(slack_ids_to_update@, ","@).len() as int,
        ),
        texts_of(invalid@) == refused(
            split(slack_ids_to_update@, ","@),
            split(slack_ids_to_update@, ","@).len() as int,
        ),
{
    proof {
        reveal_strlit(",");
        reveal_strlit(":");
    }
    let pairs = split_text(slack_ids_to_update, ",");
    let mut invalid: Vec<String> = Vec::new();
    let mut k: usize = 0;
    assert(texts_of(invalid@) =~= refused(texts_of(pairs@), 0));
    while k < pairs.len()
        invariant
            k <= pairs@.len(),
            mapping.wf(),
            ":"@.len() > 0,
            mapping.entries() == updated(old(mapping).entries(), texts_of(pairs@), k as int),
            texts_of(invalid@) == refused(texts_of(pairs@), k as int),
        decreases pairs@.len() - k,
    {
        assert(texts_of(pairs@)[k as int] == pairs@[k as int]@);
        let pair = trim_text(pairs[k].as_str());
        let parts = split_text(pair.as_str(), ":");
        if parts.len() == 2 {
            assert(texts_of(parts@)[0] == parts@[0]@ && texts_of(parts@)[1] == parts@[1]@);
            let name = trim_text(parts[0].as_str());
            let id = trim_text(parts[1].as_str());
            if text_starts_with(id.as_str(), "@") {
                mapping.insert(name, id);
            } else {
                let ghost before = texts_of(invalid@);
                invalid.push(id);
                assert(texts_of(invalid@) =~= before.push(trimmed(parts@[1]@)));
            }
        }
        k += 1;
    }
    invalid
}

/// The ids of the first `n` names, each trimmed; a name without id is passed over.
pub open spec fn ids_of(names: Seq<Seq<char>>, mapping: Map<Seq<char>, Seq<char>>, n: int) -> Set<
    Seq<char>,
>
    decreases n,
{
    if n <= 0 {
        Set::<Seq<char>>::empty()
    } else if mapping.contains_key(trimmed(names[n - 1])) {
        ids_of(names, mapping, n - 1).insert(mapping[trimmed(names[n - 1])])
    } else {
        ids_of(names, mapping, n - 1)
    }
}

/// The first `n` names, as they were given, that have no id.
pub open spec fn unknown_of(names: Seq<Seq<char>>, mapping: Map<Seq<char>, Seq<char>>, n: int) -> Seq<
    Seq<char>,
>
    decreases n,
{
    if n <= 0 {
        Seq::<Seq<char>>::empty()
    } else if mapping.contains_key(trimmed(names[n - 1])) {
        unknown_of(names, mapping, n - 1)
    } else {
        unknown_of(names, mapping, n - 1).push(names[n - 1])
    }
}

/// Looks up the Slack ids of the contributors named in a list with commas between, and
/// hands out the ids found and the names that have none.
pub fn contributor_set_from_string(contributor_string: String, slack_id_mapping: &IdMapping) -> (found: (
    TextSet,
    Vec<String>,
))
    requires
        slack_id_mapping.wf(),
    ensures
        found.0.wf(),
        found.0@ == ids_of(
            split(contributor_string@, ","@),
            slack_id_mapping.entries(),
            split(contributor_string@, ","@).len() as int,
        ),
        texts_of(found.1@) == unknown_of(
            split(contributor_string@, ","@),
            slack_id_mapping.entries(),
            split(contributor_string@, ","@).len() as int,
        ),
{
    proof {
        reveal_strlit(",");
    }
    let contributors = split_text(contributor_string.as_str(), ",");
    let mut contributor_set = TextSet::new();
    let mut unknown: Vec<String> = Vec::new();
    let mut k: usize = 0;
    assert(texts_of(unknown@) =~= unknown_of(
        texts_of(contributors@),
        slack_id_mapping.entries(),
        0,
    ));
    while k < contributors.len()
        invariant
            k <= contributors@.len(),
            slack_id_mapping.wf(),
            contributor_set.wf(),
            contributor_set@ == ids_of(
                texts_of(contributors@),
                slack_id_mapping.entries(),
                k as int,
            ),
            texts_of(unknown@) == unknown_of(
                texts_of(contributors@),
                slack_id_mapping.entries(),
                k as int,
            ),
        decreases contributors@.len() - k,
    {
        assert(texts_of(contributors@)[k as int] == contributors@[k as int]@);
        let new_contributor = trim_text(contributors[k].as_str());
        match slack_id_mapping.get(new_contributor.as_str()) {
            Some(id) => {
                contributor_set.insert(id);
            },
            None => {
                let ghost before = texts_of(unknown@);
                unknown.push(contributors[k].clone());
                assert(texts_of(unknown@) =~= before.push(contributors@[k as int]@));
            },
        }
        k += 1;
    }
    (contributor_set, unknown)
}

/// Looks up the Slack id of a person in the text of the mapping file; the name is looked
/// up in lower case.
pub fn lookup_slack_id(contents: &str, name: &str) -> (id: Option<String>)
    ensures
        ({
            let mapping = loaded(lines_of(contents@), lines_of(contents@).len() as int);
            match id {
                Some(text) => mapping.contains_key(lowercase_of(name@)) && mapping[lowercase_of(
                    name@,
                )] == text@,
                None => !mapping.contains_key(lowercase_of(name@)),
            }
        }),
{
    let mapping = load_slack_id_mapping(contents);
    let lower_name = lowercase(name);
    mapping.get(lower_name.as_str())
}

} // verus!
