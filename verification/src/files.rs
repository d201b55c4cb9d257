use crate::text::{
    contains_text, ends_with, has_substring, push_text, starts_with, string_of, text_ends_with,
    text_starts_with, texts_of,
};
use vstd::prelude::*;

verus! {

/// Whether a path names a screen recording or a screenshot in the directory: it begins
/// with the directory and `Screen Recording ` and ends with `.mov`, or begins with the
/// directory and `Screenshot ` and ends with `.png`.
pub open spec fn is_screen_capture_path(dir: Seq<char>, path: Seq<char>) -> bool {
    (starts_with(path, dir + "/"@ + "Screen Recording "@) && ends_with(path, ".mov"@)) || (
    starts_with(path, dir + "/"@ + "Screenshot "@) && ends_with(path, ".png"@))
}

/// Decides whether a path names a screen recording or a screenshot in the directory.
pub fn is_screen_capture(dir: &str, path: &str) -> (found: bool)
    ensures
        found == is_screen_capture_path(dir@, path@),
{
    let mut cast: Vec<char> = Vec::new();
    push_text(&mut cast, dir);
    push_text(&mut cast, "/");
    push_text(&mut cast, "Screen Recording ");
    let screencast_prefix = string_of(&cast);
    let mut shot: Vec<char> = Vec::new();
    push_text(&mut shot, dir);
    push_text(&mut shot, "/");
    push_text(&mut shot, "Screenshot ");
    let screenshot_prefix = string_of(&shot);
    (text_starts_with(path, screencast_prefix.as_str()) && text_ends_with(path, ".mov")) || (
    text_starts_with(path, screenshot_prefix.as_str()) && text_ends_with(path, ".png"))
}

/// The predicate that holds of the texts in which `pattern` stands.
pub open spec fn holds_pattern(pattern: Seq<char>) -> spec_fn(Seq<char>) -> bool {
    |line: Seq<char>| has_substring(line, pattern)
}

/// The lines in which `pattern` stands, in their order.
pub fn matching_lines(lines: &Vec<String>, pattern: &str) -> (found: Vec<String>)
    ensures
        texts_of(found@) == texts_of(lines@).filter(holds_pattern(pattern@)),
{
    let mut found: Vec<String> = Vec::new();
    let mut k: usize = 0;
    proof {
        reveal(Seq::filter);
        assert(texts_of(found@) =~= texts_of(lines@).take(0).filter(holds_pattern(pattern@)));
    }
    while k < lines.len()
        invariant
            k <= lines@.len(),
            texts_of(found@) == texts_of(lines@).take(k as int).filter(holds_pattern(pattern@)),
        decreases lines@.len() - k,
    {
        proof {
            reveal(Seq::filter);
            let next = texts_of(lines@).take(k as int + 1);
            assert(next.drop_last() =~= texts_of(lines@).take(k as int));
            assert(next.last() == lines@[k as int]@);
        }
        if contains_text(lines[k].as_str(), pattern) {
            let ghost before = texts_of(found@);
            found.push(lines[k].clone());
            assert(texts_of(found@) =~= before.push(lines@[k as int]@));
        }
        k += 1;
    }
    assert(texts_of(lines@).take(lines@.len() as int) =~= texts_of(lines@));
    found
}

} // verus!
