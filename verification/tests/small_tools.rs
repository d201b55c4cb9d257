use toolbox::audio::{harmonics, waveform_for_slot, Waveform};
use toolbox::combos::get_combo_compliment;
use toolbox::domains::{
    build_local_domain, build_path, build_prod_domain, build_stage_domain, build_url,
    find_domain_type, get_domain_type_from_line, PageType,
};
use toolbox::html::{encode_html, post_literal, tokenize_lines, Token};
use toolbox::semaphore::{
    apply_config_entry, merge_prompt, prep_for_new_release, release_complete_text, stage_prompt,
    SemaphoreState,
};
use toolbox::sets::{set_difference, set_intersection, set_union, TextSet};
use toolbox::slack::{
    ephemeral_response, in_channel_response, index_reply, submit_reply, Reply,
};
use toolbox::unique::unique;

fn texts(items: &[&str]) -> Vec<String> {
    items.iter().map(|s| s.to_string()).collect()
}

fn sorted(set: &TextSet) -> Vec<String> {
    let mut items = set.items.clone();
    items.sort();
    items
}

#[test]
fn unique_sorts_and_drops_repeats() {
    assert_eq!(unique(vec![1, 5, 2, 3, 4, 3, 3, 4, 3, 5, 2, 5]), vec![1, 2, 3, 4, 5]);
    assert_eq!(unique(vec![]), Vec::<i32>::new());
    assert_eq!(unique(vec![-3, 7, -3]), vec![-3, 7]);
}

#[test]
fn set_operations() {
    let a = TextSet::from_lines(&texts(&["x", "y", "z", "x"]));
    let b = TextSet::from_lines(&texts(&["y", "w"]));
    assert_eq!(a.len(), 3);
    assert_eq!(sorted(&set_union(&a, &b)), texts(&["w", "x", "y", "z"]));
    assert_eq!(sorted(&set_intersection(&a, &b)), texts(&["y"]));
    assert_eq!(sorted(&set_difference(&a, &b)), texts(&["x", "z"]));
    assert!(set_union(&a, &b).contains("w"));
    assert!(!set_difference(&a, &b).contains("y"));
}

#[test]
fn combo_complement_keeps_order() {
    let rest = get_combo_compliment(texts(&["a", "b", "c", "d", "b"]), texts(&["b", "d"]));
    assert_eq!(rest, texts(&["a", "c"]));
}

#[test]
fn slack_responses() {
    let quiet = ephemeral_response("hi".to_string());
    assert_eq!(quiet.response_type, "ephemeral");
    assert_eq!(quiet.text, "hi");
    let loud = in_channel_response("hi".to_string());
    assert_eq!(loud.response_type, "in_channel");
    assert_eq!(index_reply(), Reply::Success(in_channel_response("Dia dhuit!\n".to_string())));
}

#[test]
fn submitted_json_is_echoed() {
    let reply = submit_reply(b"{ \"b\": [1, 2],  \"a\": null }");
    assert_eq!(
        reply,
        Reply::Success(ephemeral_response("{\"a\":null,\"b\":[1,2]}".to_string()))
    );
}

#[test]
fn submitted_rubbish_is_refused() {
    match submit_reply(b"{ nope") {
        Reply::BadRequest(message) => assert!(message.starts_with("Failed to parse Json: ")),
        Reply::Success(_) => panic!("rubbish was accepted"),
    }
}

#[test]
fn domain_type_of_a_line() {
    assert_eq!(get_domain_type_from_line("x: hosted_partner(a)".to_string()), PageType::Hosted);
    assert_eq!(get_domain_type_from_line("embedded_partner hosted_partner".to_string()), PageType::Hosted);
    assert_eq!(get_domain_type_from_line("an embedded_partner".to_string()), PageType::Embedded);
    assert_eq!(get_domain_type_from_line("forwarding_partner".to_string()), PageType::Forwarding);
    assert_eq!(get_domain_type_from_line("the api_partner".to_string()), PageType::Api);
    assert_eq!(get_domain_type_from_line("partner".to_string()), PageType::Unknown);
}

#[test]
fn domain_type_is_that_of_the_first_telling_line() {
    let lines = texts(&[
        "# example.com is mentioned here",
        "other.org = hosted_partner()",
        "example.com = embedded_partner()",
        "example.com = api_partner()",
    ]);
    assert_eq!(find_domain_type("example.com", &lines), PageType::Embedded);
    assert_eq!(find_domain_type("missing.net", &lines), PageType::Unknown);
}

#[test]
fn test_page_addresses() {
    assert_eq!(build_path(&PageType::Hosted), "/serp?q=hotels&debug=show");
    assert_eq!(build_path(&PageType::Embedded), "/embedded-demo?q=hotels&debug=show#S1&debug=1");
    assert_eq!(build_path(&PageType::Api), "/serp?q=hotels&debug=show");
    assert_eq!(
        build_local_domain("a.b.com", &PageType::Hosted),
        "http://local.a.b.com:8080/serp?q=hotels&debug=show"
    );
    assert_eq!(
        build_stage_domain("a.b.com", None, &PageType::Hosted),
        "http://a.b.com.search-stage.system1.company/serp?q=hotels&debug=show"
    );
    assert_eq!(
        build_stage_domain("a.b.com", Some("u7".to_string()), &PageType::Embedded),
        "http://a-b-com.search-stage-u7.system1.company/embedded-demo?q=hotels&debug=show#S1&debug=1"
    );
    assert_eq!(
        build_prod_domain("a.b.com", &PageType::Hosted),
        "https://a.b.com/serp?q=hotels&debug=show"
    );
    assert_eq!(
        build_prod_domain("a.b.com", &PageType::Embedded),
        "https://a-b-com.s1search.co/embedded-demo?q=hotels&debug=show#S1&debug=1"
    );
    assert_eq!(
        build_prod_domain("a.b.com", &PageType::Forwarding),
        "https://a-b-com/serp?q=hotels&debug=show.s1search.co"
    );
}

#[test]
fn address_for_settings() {
    assert_eq!(
        build_url("a.com", "l", "X", &PageType::Hosted),
        "http://local.a.com:8080/serp?q=hotels&debug=show"
    );
    assert_eq!(
        build_url("a.com", "stage", "X", &PageType::Hosted),
        "http://a.com.search-stage.system1.company/serp?q=hotels&debug=show"
    );
    assert_eq!(
        build_url("a.com", "s", "u1", &PageType::Hosted),
        "http://a.com.search-stage-u1.system1.company/serp?q=hotels&debug=show"
    );
    assert_eq!(
        build_url("a.com", "prod", "u1", &PageType::Hosted),
        "https://a.com/serp?q=hotels&debug=show"
    );
}

#[test]
fn html_tokens_and_encoding() {
    let tokens = tokenize_lines(&texts(&["a <b> {c}", "x&y; 'q' \"r\""]));
    let encoded = encode_html(tokens);
    assert_eq!(
        encoded,
        "a &lt;b&gt; &lbrace;c&rbrace;<br />x&amp;y&semi; &apos;q&apos; &quot;r&quot;<br />"
    );
}

#[test]
fn post_literal_moves_the_pending_text() {
    let mut tokens: Vec<Token> = Vec::new();
    let mut literal = String::new();
    assert!(!post_literal(&mut tokens, &mut literal));
    assert!(tokens.is_empty());
    literal.push_str("word");
    assert!(post_literal(&mut tokens, &mut literal));
    assert_eq!(literal, "");
    assert_eq!(tokens.len(), 1);
    assert!(matches!(&tokens[0], Token::Literal(text) if text == "word"));
}

#[test]
fn waveforms() {
    assert_eq!(waveform_for_slot(0), Waveform::Sine);
    assert_eq!(waveform_for_slot(1), Waveform::Saw);
    assert_eq!(waveform_for_slot(2), Waveform::Square);
    assert_eq!(waveform_for_slot(3), Waveform::Triangle);
    assert_eq!(waveform_for_slot(4), Waveform::WhatDis);
    assert_eq!(waveform_for_slot(-1), Waveform::Sine);
    assert_eq!(harmonics(Waveform::Sine), None);
    assert_eq!(harmonics(Waveform::Triangle), Some((2, 2)));
    assert_eq!(harmonics(Waveform::WhatDis), Some((4, 1)));
}

#[test]
fn semaphore_state_and_prompts() {
    let mut state = SemaphoreState::new();
    assert!(state.contributors.is_empty() && state.release_tag.is_empty());
    assert!(apply_config_entry(&mut state, "one.com"));
    assert!(apply_config_entry(&mut state, "two.com"));
    assert_eq!(state.configs_to_update, texts(&["one.com", "two.com"]));
    assert!(!apply_config_entry(&mut state, "q"));
    assert_eq!(state.configs_to_update, texts(&["one.com", "two.com"]));
    assert!(!apply_config_entry(&mut state, "all"));
    assert_eq!(state.configs_to_update, texts(&["all"]));
    state.contributors = texts(&["@Ann", "@Bob"]);
    assert_eq!(
        merge_prompt(&state),
        "@Ann\n@Bob\n\nWhat is your merge status?\n:sonic-wait: (in merge queue)\n:github-merged-pr: (merged)\n:tuzki-give-up: (I'm pulling out of release)"
    );
    assert_eq!(
        stage_prompt(&state),
        "@Ann\n@Bob\n\nYour code is on stage - how does it look?\n:eyes: (I'm looking now)\n:thumbsup: (all good)\n:dont-ship-it: (I've got to revert)"
    );
    assert_eq!(
        release_complete_text(&state),
        "@Ann\n@Bob\n\nConfigs to out\n\nRelease is complete - please confirm"
    );
    assert!(!apply_config_entry(&mut state, "none"));
    assert_eq!(
        release_complete_text(&state),
        "@Ann\n@Bob\n\nNo configs to update\n\nRelease is complete - please confirm"
    );
    prep_for_new_release(&mut state);
    assert!(state.contributors.is_empty() && state.configs_to_update.is_empty());
}
