use crate::mapping::{contributor_set_from_string, ids_of, unknown_of, IdMapping};
use crate::text::{join_texts, joined, split, split_text, texts_of, trim_text, trimmed};
use vstd::prelude::*;

verus! {

/// What is known of the release that is being prepared.
pub struct SemaphoreState {
    pub contributors: Vec<String>,
    pub release_tag: String,
    pub new_sites: Vec<String>,
    pub configs_to_update: Vec<String>,
    pub sites_to_delete: Vec<String>,
}

impl SemaphoreState {
    /// Nothing is known of the release.
    pub open spec fn is_blank(&self) -> bool {
        &&& self.contributors@.len() == 0
        &&& self.release_tag@.len() == 0
        &&& self.new_sites@.len() == 0
        &&& self.configs_to_update@.len() == 0
        &&& self.sites_to_delete@.len() == 0
    }

    /// The state before anything is known of a release.
    pub fn new() -> (state: SemaphoreState)
        ensures
            state.is_blank(),
    {
        SemaphoreState {
            contributors: Vec::new(),
            release_tag: String::new(),
            new_sites: Vec::new(),
            configs_to_update: Vec::new(),
            sites_to_delete: Vec::new(),
        }
    }
}

/// Forgets all that was known of the last release.
pub fn prep_for_new_release(state: &mut SemaphoreState)
    ensures
        final(state).is_blank(),
{
    state.contributors = Vec::new();
    state.release_tag = String::new();
    state.new_sites = Vec::new();
    state.configs_to_update = Vec::new();
    state.sites_to_delete = Vec::new();
}

/// The list of configurations after one more entry: `q` leaves it, `none` empties it,
/// `all` replaces it by the one word, any other entry is added to it.
pub open spec fn configs_after(before: Seq<Seq<char>>, entry: Seq<char>) -> Seq<Seq<char>> {
    if entry == "q"@ {
        before
    } else if entry == "none"@ {
        Seq::<Seq<char>>::empty()
    } else if entry == "all"@ {
        seq!["all"@]
    } else {
        before.push(entry)
    }
}

/// Whether another entry is asked for after this one: not after `q`, `none` or `all`.
pub open spec fn asks_again(entry: Seq<char>) -> bool {
    entry != "q"@ && entry != "none"@ && entry != "all"@
}

/// Takes one entry for the list of configurations to update and says whether to ask for
/// another.
pub fn apply_config_entry(state: &mut SemaphoreState, config: &str) -> (more: bool)
    ensures
        texts_of(final(state).configs_to_update@) == configs_after(
            texts_of(old(state).configs_to_update@),
            config@,
        ),
        more == asks_again(config@),
        final(state).contributors == old(state).contributors,
        final(state).release_tag == old(state).release_tag,
        final(state).new_sites == old(state).new_sites,
        final(state).sites_to_delete == old(state).sites_to_delete,
{
    let entry = config.to_owned();
    if entry == "q".to_owned() {
        false
    } else if entry == "none".to_owned() {
        state.configs_to_update = Vec::new();
        assert(texts_of(state.configs_to_update@) =~= Seq::<Seq<char>>::empty());
        false
    } else if entry == "all".to_owned() {
        state.configs_to_update = Vec::new();
        state.configs_to_update.push("all".to_owned());
        assert(texts_of(state.configs_to_update@) =~= seq!["all"@]);
        false
    } else {
        state.configs_to_update.push(entry);
        assert(texts_of(state.configs_to_update@) =~= texts_of(old(state).configs_to_update@).push(
            config@,
        ));
        true
    }
}

/// A copy of the texts.
pub fn copy_texts(texts: &Vec<String>) -> (out: Vec<String>)
    ensures
        texts_of(out@) == texts_of(texts@),
{
    let mut out: Vec<String> = Vec::new();
    let mut k: usize = 0;
    while k < texts.len()
        invariant
            k <= texts@.len(),
            texts_of(out@) == texts_of(texts@).take(k as int),
        decreases texts@.len() - k,
    {
        let ghost before = texts_of(out@);
        out.push(texts[k].clone());
        assert(texts_of(out@) =~= before.push(texts@[k as int]@));
        assert(texts_of(texts@).take(k as int + 1) =~= before.push(texts@[k as int]@));
        k += 1;
    }
    assert(texts_of(texts@).take(texts@.len() as int) =~= texts_of(texts@));
    out
}

/// The lines that ask the contributors how their merge stands.
pub open spec fn merge_prompt_lines(contributors: Seq<Seq<char>>) -> Seq<Seq<char>> {
    contributors + seq![
        "\nWhat is your merge status?"@,
        ":sonic-wait: (in merge queue)"@,
        ":github-merged-pr: (merged)"@,
        ":tuzki-give-up: (I'm pulling out of release)"@,
    ]
}

/// The message that asks the contributors how their merge stands.
pub fn merge_prompt(state: &SemaphoreState) -> (message: String)
    ensures
        message@ == joined(merge_prompt_lines(texts_of(state.contributors@)), "\n"@),
{
    let mut lines = copy_texts(&state.contributors);
    lines.push("\nWhat is your merge status?".to_owned());
    lines.push(":sonic-wait: (in merge queue)".to_owned());
    lines.push(":github-merged-pr: (merged)".to_owned());
    lines.push(":tuzki-give-up: (I'm pulling out of release)".to_owned());
    assert(texts_of(lines@) =~= merge_prompt_lines(texts_of(state.contributors@)));
    join_texts(&lines, "\n")
}

/// The lines that ask the contributors how their code looks on stage.
pub open spec fn stage_prompt_lines(contributors: Seq<Seq<char>>) -> Seq<Seq<char>> {
    contributors + seq![
        "\nYour code is on stage - how does it look?"@,
        ":eyes: (I'm looking now)"@,
        ":thumbsup: (all good)"@,
        ":dont-ship-it: (I've got to revert)"@,
    ]
}

/// The message that asks the contributors how their code looks on stage.
pub fn stage_prompt(state: &SemaphoreState) -> (message: String)
    ensures
        message@ == joined(stage_prompt_lines(texts_of(state.contributors@)), "\n"@),
{
    let mut lines = copy_texts(&state.contributors);
    lines.push("\nYour code is on stage - how does it look?".to_owned());
    lines.push(":eyes: (I'm looking now)".to_owned());
    lines.push(":thumbsup: (all good)".to_owned());
    lines.push(":dont-ship-it: (I've got to revert)".to_owned());
    assert(texts_of(lines@) =~= stage_prompt_lines(texts_of(state.contributors@)));
    join_texts(&lines, "\n")
}

/// The lines that tell the contributors that the release is complete.
pub open spec fn release_complete_lines(contributors: Seq<Seq<char>>, has_configs: bool) -> Seq<
    Seq<char>,
> {
    contributors + seq![
        if has_configs {
            "\nConfigs to out"@
        } else {
            "\nNo configs to update"@
        },
        "\nRelease is complete - please confirm"@,
    ]
}

/// The message that tells the contributors that the release is complete.
pub fn release_complete_text(state: &SemaphoreState) -> (message: String)
    ensures
        message@ == joined(
            release_complete_lines(
                texts_of(state.contributors@),
                state.configs_to_update@.len() > 0,
            ),
            "\n"@,
        ),
{
    let mut lines = copy_texts(&state.contributors);
    if state.configs_to_update.len() > 0 {
        lines.push("\nConfigs to out".to_owned());
    } else {
        lines.push("\nNo configs to update".to_owned());
    }
    lines.push("\nRelease is complete - please confirm".to_owned());
    assert(texts_of(lines@) =~= release_complete_lines(
        texts_of(state.contributors@),
        state.configs_to_update@.len() > 0,
    ));
    join_texts(&lines, "\n")
}

/// The parts of a list with commas between, each trimmed.
pub open spec fn trimmed_parts(list: Seq<char>) -> Seq<Seq<char>> {
    Seq::new(split(list, ","@).len(), |k: int| trimmed(split(list, ","@)[k]))
}

/// Takes a list with commas between apart and trims each part.
pub fn parse_list(list: &str) -> (parts: Vec<String>)
    ensures
        texts_of(parts@) == trimmed_parts(list@),
{
    proof {
        reveal_strlit(",");
    }
    let pieces = split_text(list, ",");
    let mut parts: Vec<String> = Vec::new();
    let mut k: usize = 0;
    while k < pieces.len()
        invariant
            k <= pieces@.len(),
            parts@.len() == k,
            forall|e: int| 0 <= e < k ==> parts@[e]@ == trimmed(pieces@[e]@),
        decreases pieces@.len() - k,
    {
        parts.push(trim_text(pieces[k].as_str()));
        k += 1;
    }
    assert(texts_of(parts@) =~= trimmed_parts(list@)) by {
        assert forall|e: int| 0 <= e < parts@.len() implies texts_of(parts@)[e] == trimmed_parts(
            list@,
        )[e] by {
            assert(texts_of(pieces@)[e] == pieces@[e]@);
        }
    }
    parts
}

/// Replaces the new sites by those named in a list with commas between.
pub fn update_new_domains(state: &mut SemaphoreState, domain_list_string: &str)
    ensures
        texts_of(final(state).new_sites@) == trimmed_parts(domain_list_string@),
        final(state).contributors == old(state).contributors,
        final(state).release_tag == old(state).release_tag,
        final(state).configs_to_update == old(state).configs_to_update,
        final(state).sites_to_delete == old(state).sites_to_delete,
{
    state.new_sites = parse_list(domain_list_string);
}

/// Replaces the sites to delete by those named in a list with commas between.
pub fn update_delete_domains(state: &mut SemaphoreState, domain_list_string: &str)
    ensures
        texts_of(final(state).sites_to_delete@) == trimmed_parts(domain_list_string@),
        final(state).contributors == old(state).contributors,
        final(state).release_tag == old(state).release_tag,
        final(state).configs_to_update == old(state).configs_to_update,
        final(state).new_sites == old(state).new_sites,
{
    state.sites_to_delete = parse_list(domain_list_string);
}

/// Replaces the release tag by the one typed in, trimmed.
pub fn update_release_tag(state: &mut SemaphoreState, release_tag: &str)
    ensures
        final(state).release_tag@ == trimmed(release_tag@),
        final(state).contributors == old(state).contributors,
        final(state).new_sites == old(state).new_sites,
        final(state).configs_to_update == old(state).configs_to_update,
        final(state).sites_to_delete == old(state).sites_to_delete,
{
    state.release_tag = trim_text(release_tag);
}

/// Replaces the contributors by the Slack ids of those named in a list with commas
/// between, each id once, and hands out the names that have no id.
pub fn update_contributors(
    state: &mut SemaphoreState,
    new_contributor_list: String,
    slack_id_mapping: &IdMapping,
) -> (unknown: Vec<String>)
    requires
        slack_id_mapping.wf(),
    ensures
        texts_of(final(state).contributors@).to_set() == ids_of(
            split(new_contributor_list@, ","@),
            slack_id_mapping.entries(),
            split(new_contributor_list@, ","@).len() as int,
        ),
        texts_of(final(state).contributors@).no_duplicates(),
        texts_of(unknown@) == unknown_of(
            split(new_contributor_list@, ","@),
            slack_id_mapping.entries(),
            split(new_contributor_list@, ","@).len() as int,
        ),
        final(state).release_tag == old(state).release_tag,
        final(state).new_sites == old(state).new_sites,
        final(state).configs_to_update == old(state).configs_to_update,
        final(state).sites_to_delete == old(state).sites_to_delete,
{
    let (found, unknown) = contributor_set_from_string(new_contributor_list, slack_id_mapping);
    proof {
        let items = texts_of(found.items@);
        assert forall|t: Seq<char>| items.to_set().contains(t) <==> found@.contains(t) by {
            if items.contains(t) {
                let k = choose|k: int| 0 <= k < items.len() && items[k] == t;
                assert(found.index@.contains(found.items@[k]@));
            }
            if found@.contains(t) {
                let k = choose|k: int| 0 <= k < found.items@.len() && found.items@[k]@ == t;
                assert(items[k] == t);
            }
        }
        assert(items.to_set() =~= found@);
    }
    state.contributors = found.items;
    unknown
}

} // verus!
