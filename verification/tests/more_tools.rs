use toolbox::blog::{split_content, BlogPostsForJson, Post};
use toolbox::combos::{get_combos, list_combinations};
use toolbox::files::{is_screen_capture, matching_lines};
use toolbox::mapping::{
    contributor_set_from_string, load_slack_id_mapping, lookup_slack_id, mapping_text,
    text_lines, update_slack_id_mapping, IdMapping,
};
use toolbox::nudge::{build_message, Weekday};
use toolbox::semaphore::{
    parse_list, update_contributors, update_delete_domains, update_new_domains,
    update_release_tag, SemaphoreState,
};
use toolbox::summary::{make_header, make_summary_filename, validate_filename, Date};
use toolbox::text::{
    contains_text, join_texts, split_text, text_before, text_ends_with, text_starts_with,
    trim_text,
};

fn texts(items: &[&str]) -> Vec<String> {
    items.iter().map(|s| s.to_string()).collect()
}

#[test]
fn text_is_split_like_the_standard_library_does() {
    for (text, sep) in [
        ("a,b,,c", ","),
        ("", ","),
        (",", ","),
        ("a|>b|>c", "|>"),
        ("aaa", "aa"),
        ("||>|>", "|>"),
        ("no separator", "^"),
    ] {
        let expected: Vec<String> = text.split(sep).map(|s| s.to_string()).collect();
        assert_eq!(split_text(text, sep), expected);
    }
}

#[test]
fn text_is_trimmed_like_the_standard_library_does() {
    for text in ["  a b \n", "", "   ", "\u{a0}x\u{3000}", "\u{200b}x", "x\t\r\n", "\u{85}\u{1680}y\u{2028}"] {
        assert_eq!(trim_text(text), text.trim());
    }
}

#[test]
fn texts_are_searched_joined_and_compared() {
    assert!(contains_text("hello world", "o w"));
    assert!(contains_text("hello", ""));
    assert!(!contains_text("hello", "hello!"));
    assert!(text_starts_with("hello", "he") && !text_starts_with("hello", "el"));
    assert!(text_ends_with("hello", "llo") && !text_ends_with("hello", "hell"));
    assert_eq!(join_texts(&texts(&["a", "b", "c"]), ", "), "a, b, c");
    assert_eq!(join_texts(&texts(&[]), ", "), "");
    for (a, b) in [("abc", "abd"), ("ab", "abc"), ("abc", "ab"), ("", ""), ("b", "a"), ("é", "z")] {
        assert_eq!(text_before(a, b), a < b);
    }
}

#[test]
fn lines_are_told_apart_like_the_standard_library_does() {
    for text in ["a\nb\r\nc", "a\n", "a\n\n", "", "\n", "a\r", "a\r\n\r\nb\r"] {
        let expected: Vec<String> = text.lines().map(|s| s.to_string()).collect();
        assert_eq!(text_lines(text), expected);
    }
}

#[test]
fn combos_of_two_out_of_three() {
    let mut combos = get_combos(texts(&["b", "a", "c"]), 2);
    combos.sort();
    assert_eq!(combos, vec![texts(&["a", "b"]), texts(&["a", "c"]), texts(&["b", "c"])]);
}

#[test]
fn combos_with_repeats_and_too_few_items() {
    let mut combos = get_combos(texts(&["x", "y", "x"]), 1);
    combos.sort();
    assert_eq!(combos, vec![texts(&["x"]), texts(&["y"])]);
    assert_eq!(get_combos(texts(&["q", "p"]), 5), vec![texts(&["p", "q"])]);
    assert_eq!(get_combos(texts(&["q", "p"]), 0), vec![Vec::<String>::new()]);
    assert_eq!(get_combos(Vec::new(), 3), vec![Vec::<String>::new()]);
}

#[test]
fn mapping_is_loaded_looked_up_and_written() {
    let mapping = load_slack_id_mapping("ann:@Ann A\nbob:@Bob\nbroken line\na:b:c\nann:@Ann B\n");
    assert_eq!(mapping.get("ann"), Some("@Ann B".to_string()));
    assert_eq!(mapping.get("bob"), Some("@Bob".to_string()));
    assert_eq!(mapping.get("broken line"), None);
    assert_eq!(mapping_text(&mapping), "ann:@Ann B\nbob:@Bob\n");
    assert_eq!(lookup_slack_id("ann:@Ann\n", "ANN"), Some("@Ann".to_string()));
    assert_eq!(lookup_slack_id("ann:@Ann\n", "eve"), None);
}

#[test]
fn mapping_is_updated() {
    let mut mapping = IdMapping::new();
    let invalid = update_slack_id_mapping(
        &mut mapping,
        " cantcatchme : @Gingerbread Man ,jfrost:@Jack Frost,bad:NoAt,odd\n",
    );
    assert_eq!(invalid, texts(&["NoAt"]));
    assert_eq!(mapping.get("cantcatchme"), Some("@Gingerbread Man".to_string()));
    assert_eq!(mapping.get("jfrost"), Some("@Jack Frost".to_string()));
    assert_eq!(mapping.get("bad"), None);
}

#[test]
fn contributors_are_looked_up() {
    let mapping = load_slack_id_mapping("ann:@Ann\nbob:@Bob\nrob:@Bob\n");
    let (found, unknown) = contributor_set_from_string("bob, ann ,eve,rob\n".to_string(), &mapping);
    assert_eq!(found.items, texts(&["@Bob", "@Ann"]));
    assert_eq!(unknown, texts(&["eve"]));
    let mut state = SemaphoreState::new();
    let missing = update_contributors(&mut state, "ann,zed".to_string(), &mapping);
    assert_eq!(state.contributors, texts(&["@Ann"]));
    assert_eq!(missing, texts(&["zed"]));
}

#[test]
fn release_state_is_updated() {
    let mut state = SemaphoreState::new();
    update_new_domains(&mut state, "a.com, b.com\n");
    update_delete_domains(&mut state, "old.com");
    update_release_tag(&mut state, "  v1.2.3\n");
    assert_eq!(state.new_sites, texts(&["a.com", "b.com"]));
    assert_eq!(state.sites_to_delete, texts(&["old.com"]));
    assert_eq!(state.release_tag, "v1.2.3");
    assert_eq!(parse_list(""), texts(&[""]));
}

#[test]
fn update_file_names() {
    assert_eq!(
        validate_filename("20240105_update.txt"),
        Ok(Date { year: 2024, month: 1, day: 5 })
    );
    assert_eq!(
        validate_filename("20240105_update.md"),
        Err("filename must end with _update.txt".to_string())
    );
    assert_eq!(
        validate_filename("2024015_update.txt"),
        Err("filename must be 19 characters long".to_string())
    );
    assert_eq!(
        validate_filename("20241305_update.txt"),
        Err("filename must start with a date in YYYYMMDD format".to_string())
    );
}

#[test]
fn summary_name_and_header() {
    let day = Date { year: 2024, month: 1, day: 5 };
    assert_eq!(make_summary_filename(&day), Some("20240105_summary_update.txt".to_string()));
    assert_eq!(
        make_header(&day),
        Some(
            ",----------------------------------------,\n| SearchSites Team Update for 2024/01/05 |\n`----------------------------------------'\n\n"
                .to_string()
        )
    );
    assert_eq!(make_summary_filename(&Date { year: 2024, month: 2, day: 30 }), None);
}

#[test]
fn reminders() {
    assert_eq!(
        build_message("Ann".to_string(), Weekday::Mon),
        "Happy Monday Ann!\nI hope you had a great weekend.\nWould you kindly send me your update for last week please? :pls:\nClick the link to start the workflow:\nhttps://slack.com/shortcuts/Ft0816961QNQ/ec60e56ad0f54f3025cc1d5ef4e6d53f\nI'd really appreciate it.\n\nThank you!\nSearch Sites Team Update Bot"
    );
    assert_eq!(
        build_message("Bob".to_string(), Weekday::Sun),
        "Hey Bob!\nIgnore this until Monday...  it's still the weekend.\n\nThank you!\nSearch Sites Team Update Bot"
    );
    assert_eq!(
        build_message("Bob".to_string(), Weekday::Sat),
        "Hey Bob!\nI forgot to ping you on Friday\nWould you give me your update for the week so I can get it done early on Monday?\nI'd really appreciate it.\n  It's the weekend though - so ignore this until Monday\n\nThank you!\nSearch Sites Team Update Bot"
    );
    assert!(build_message("C".to_string(), Weekday::Tue).starts_with("Happy Tuesday C!\nI hope you had a great long weekend.\n"));
    assert!(build_message("C".to_string(), Weekday::Wed).contains("like Thanksgiving"));
    assert!(build_message("C".to_string(), Weekday::Thu).contains("good Thursday so far, and have fun, long weekend plans."));
    assert!(build_message("C".to_string(), Weekday::Fri).contains("good Friday so far, and have fun weekend plans."));
}

#[test]
fn screen_captures_and_matching_lines() {
    assert!(is_screen_capture("/home/me/Desktop", "/home/me/Desktop/Screenshot 2024-01-01.png"));
    assert!(is_screen_capture("/d", "/d/Screen Recording 1.mov"));
    assert!(!is_screen_capture("/d", "/d/Screenshot 1.mov"));
    assert!(!is_screen_capture("/d", "/d/notes.png"));
    assert!(!is_screen_capture("/d", "/e/Screenshot 1.png"));
    assert_eq!(
        matching_lines(&texts(&["alpha", "beta", "alphabet", ""]), "alp"),
        texts(&["alpha", "alphabet"])
    );
}

#[test]
fn blog_posts() {
    assert_eq!(split_content("one^two^^three"), texts(&["one", "two", "", "three"]));
    let post = Post { title: "T".to_string(), body: "p1^p2".to_string() };
    let stamped = post.for_json("2024:01:05:10:00:00".to_string());
    assert_eq!(stamped.woa_time, "2024:01:05:10:00:00");
    assert_eq!(stamped.content, texts(&["p1", "p2"]));
    let mut blog = BlogPostsForJson::empty();
    blog.add_post(stamped);
    blog.add_post(Post { title: "U".to_string(), body: "".to_string() }.for_json("t".to_string()));
    assert_eq!(blog.posts.len(), 2);
    assert_eq!(blog.posts[0].title, "U");
    assert_eq!(blog.posts[1].title, "T");
}

#[test]
fn combinations_are_listed_by_the_shorter_way() {
    assert_eq!(list_combinations(texts(&["a", "b"]), 2), vec![texts(&["a", "b"])]);
    assert_eq!(list_combinations(texts(&["b", "a"]), 7), vec![texts(&["b", "a"])]);
    let mut few = list_combinations(texts(&["c", "a", "b", "d"]), 1);
    few.sort();
    assert_eq!(few, vec![texts(&["a"]), texts(&["b"]), texts(&["c"]), texts(&["d"])]);
    let mut many = list_combinations(texts(&["c", "a", "b", "d"]), 3);
    many.sort();
    assert_eq!(
        many,
        vec![
            texts(&["a", "b", "d"]),
            texts(&["c", "a", "b"]),
            texts(&["c", "a", "d"]),
            texts(&["c", "b", "d"]),
        ]
    );
}
