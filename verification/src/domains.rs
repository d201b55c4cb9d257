use crate::text::{contains_text, has_substring, push_replaced, push_text, replaced, string_of};
use vstd::prelude::*;

verus! {

/// How a partner domain serves its search pages.
#[derive(Clone, Copy, Debug, PartialEq, Eq, Structural)]
pub enum PageType {
    Hosted,
    Embedded,
    Forwarding,
    Api,
    Unknown,
}

/// Where a page is served from.
#[derive(Clone, Copy, Debug, PartialEq, Eq, Structural)]
pub enum Environment {
    Local,
    Stage,
    Prod,
}

/// The kind of partner that a line of the configuration names: the first of hosted,
/// embedded, forwarding and api whose keyword stands in the line.
pub open spec fn line_type(line: Seq<char>) -> PageType {
    if has_substring(line, "hosted_partner"@) {
        PageType::Hosted
    } else if has_substring(line, "embedded_partner"@) {
        PageType::Embedded
    } else if has_substring(line, "forwarding_partner"@) {
        PageType::Forwarding
    } else if has_substring(line, "api_partner"@) {
        PageType::Api
    } else {
        PageType::Unknown
    }
}

/// Reads the kind of partner off a line of the configuration.
pub fn get_domain_type_from_line(line: String) -> (domain_type: PageType)
    ensures
        domain_type == line_type(line@),
{
    let mut domain_type = PageType::Unknown;
    if contains_text(line.as_str(), "hosted_partner") {
        domain_type = PageType::Hosted;
    } else if contains_text(line.as_str(), "embedded_partner") {
        domain_type = PageType::Embedded;
    } else if contains_text(line.as_str(), "forwarding_partner") {
        domain_type = PageType::Forwarding;
    } else if contains_text(line.as_str(), "api_partner") {
        domain_type = PageType::Api;
    }
    domain_type
}

/// The kind of partner that the first `n` lines give for `domain`: that of the first line
/// which names the domain and a kind, or unknown if there is none.
pub open spec fn domain_type_in(lines: Seq<String>, domain: Seq<char>, n: int) -> PageType
    decreases n,
{
    if n <= 0 {
        PageType::Unknown
    } else if domain_type_in(lines, domain, n - 1) != PageType::Unknown {
        domain_type_in(lines, domain, n - 1)
    } else if has_substring(lines[n - 1]@, domain) {
        line_type(lines[n - 1]@)
    } else {
        PageType::Unknown
    }
}

/// Once a line has told the kind, later lines do not change it.
pub proof fn lemma_domain_type_settles(lines: Seq<String>, domain: Seq<char>, m: int, n: int)
    requires
        0 <= m <= n,
        domain_type_in(lines, domain, m) != PageType::Unknown,
    ensures
        domain_type_in(lines, domain, n) == domain_type_in(lines, domain, m),
    decreases n - m,
{
    if m < n {
        lemma_domain_type_settles(lines, domain, m, n - 1);
    }
}

/// Looks `domain` up in the lines of the configuration.
pub fn find_domain_type(domain: &str, lines: &Vec<String>) -> (domain_type: PageType)
    ensures
        domain_type == domain_type_in(lines@, domain@, lines@.len() as int),
{
    let mut k: usize = 0;
    while k < lines.len()
        invariant
            k <= lines.len(),
            domain_type_in(lines@, domain@, k as int) == PageType::Unknown,
        decreases lines.len() - k,
    {
        if contains_text(lines[k].as_str(), domain) {
            let found = get_domain_type_from_line(lines[k].clone());
            match found {
                PageType::Unknown => {},
                _ => {
                    proof {
                        assert(domain_type_in(lines@, domain@, k + 1) == found);
                        lemma_domain_type_settles(lines@, domain@, k + 1, lines@.len() as int);
                    }
                    return found;
                },
            }
        }
        k += 1;
    }
    PageType::Unknown
}

/// The path and query of the test page for a kind of partner.
pub open spec fn path_for(page_type: PageType) -> Seq<char> {
    match page_type {
        PageType::Embedded => "/embedded-demo?q=hotels&debug=show#S1&debug=1"@,
        _ => "/serp?q=hotels&debug=show"@,
    }
}

/// The path and query of the test page for a kind of partner.
pub fn build_path(page_type: &PageType) -> (path: String)
    ensures
        path@ == path_for(*page_type),
{
    match page_type {
        PageType::Hosted => "/serp?q=hotels&debug=show".to_owned(),
        PageType::Embedded => "/embedded-demo?q=hotels&debug=show#S1&debug=1".to_owned(),
        _ => "/serp?q=hotels&debug=show".to_owned(),
    }
}

/// The address of the test page on a developer's machine.
pub fn build_local_domain(domain: &str, page_type: &PageType) -> (url: String)
    ensures
        url@ == "http://local."@ + domain@ + ":8080"@ + path_for(*page_type),
{
    let path = build_path(page_type);
    let mut out: Vec<char> = Vec::new();
    push_text(&mut out, "http://local.");
    push_text(&mut out, domain);
    push_text(&mut out, ":8080");
    push_text(&mut out, path.as_str());
    string_of(&out)
}

/// The domain as it is written inside a host name: as it is for a hosted partner, with
/// dashes for dots otherwise.
pub open spec fn host_part(domain: Seq<char>, page_type: PageType) -> Seq<char> {
    match page_type {
        PageType::Hosted => domain,
        _ => replaced(domain, '.', '-'),
    }
}

/// The address of the test page in production.
pub open spec fn prod_url(domain: Seq<char>, page_type: PageType) -> Seq<char> {
    match page_type {
        PageType::Hosted => "https://"@ + domain + path_for(page_type),
        PageType::Embedded => "https://"@ + replaced(domain, '.', '-') + ".s1search.co"@
            + path_for(page_type),
        _ => "https://"@ + replaced(domain, '.', '-') + path_for(page_type) + ".s1search.co"@,
    }
}

/// The address of the test page in production.
pub fn build_prod_domain(domain: &str, page_type: &PageType) -> (url: String)
    ensures
        url@ == prod_url(domain@, *page_type),
{
    let path = build_path(page_type);
    let mut out: Vec<char> = Vec::new();
    push_text(&mut out, "https://");
    match page_type {
        PageType::Hosted => {
            push_text(&mut out, domain);
            push_text(&mut out, path.as_str());
        },
        PageType::Embedded => {
            push_replaced(&mut out, domain, '.', '-');
            push_text(&mut out, ".s1search.co");
            push_text(&mut out, path.as_str());
        },
        _ => {
            push_replaced(&mut out, domain, '.', '-');
            push_text(&mut out, path.as_str());
            push_text(&mut out, ".s1search.co");
        },
    }
    string_of(&out)
}

/// The address of the test page on a stage: the main stage, or the unit given.
pub open spec fn stage_url(domain: Seq<char>, unit: Option<Seq<char>>, page_type: PageType) -> Seq<
    char,
> {
    match unit {
        None => "http://"@ + host_part(domain, page_type) + ".search-stage.system1.company"@
            + path_for(page_type),
        Some(name) => "http://"@ + host_part(domain, page_type) + ".search-stage-"@ + name
            + ".system1.company"@ + path_for(page_type),
    }
}

/// The address of the test page on a stage: the main stage, or the unit given.
pub fn build_stage_domain(domain: &str, unit: Option<String>, page_type: &PageType) -> (url: String)
    ensures
        url@ == stage_url(
            domain@,
            match unit {
                Some(name) => Some(name@),
                None => None,
            },
            *page_type,
        ),
{
    let path = build_path(page_type);
    let mut out: Vec<char> = Vec::new();
    push_text(&mut out, "http://");
    match page_type {
        PageType::Hosted => {
            push_text(&mut out, domain);
        },
        _ => {
            push_replaced(&mut out, domain, '.', '-');
        },
    }
    match unit {
        None => {
            push_text(&mut out, ".search-stage.system1.company");
        },
        Some(unit_name) => {
            push_text(&mut out, ".search-stage-");
            push_text(&mut out, unit_name.as_str());
            push_text(&mut out, ".system1.company");
        },
    }
    push_text(&mut out, path.as_str());
    string_of(&out)
}

/// The environment that a setting names: `l` or `local`, `s` or `stage`, production for
/// anything else.
pub open spec fn environment_named(env: Seq<char>) -> Environment {
    if env == "l"@ || env == "local"@ {
        Environment::Local
    } else if env == "s"@ || env == "stage"@ {
        Environment::Stage
    } else {
        Environment::Prod
    }
}

/// Reads the environment off a setting.
pub fn parse_environment(env: &str) -> (environment: Environment)
    ensures
        environment == environment_named(env@),
{
    let given = env.to_owned();
    if given == "l".to_owned() || given == "local".to_owned() {
        Environment::Local
    } else if given == "s".to_owned() || given == "stage".to_owned() {
        Environment::Stage
    } else {
        Environment::Prod
    }
}

/// The stage unit that a setting names; `X` stands for none.
pub fn parse_unit(unit: &str) -> (name: Option<String>)
    ensures
        match name {
            None => unit@ == "X"@,
            Some(text) => unit@ != "X"@ && text@ == unit@,
        },
{
    let given = unit.to_owned();
    if given == "X".to_owned() {
        None
    } else {
        Some(given)
    }
}

/// The address of the test page for the settings given.
pub open spec fn url_for(domain: Seq<char>, env: Seq<char>, unit: Seq<char>, page_type: PageType) -> Seq<
    char,
> {
    match environment_named(env) {
        Environment::Local => "http://local."@ + domain + ":8080"@ + path_for(page_type),
        Environment::Stage => stage_url(
            domain,
            if unit == "X"@ {
                None
            } else {
                Some(unit)
            },
            page_type,
        ),
        Environment::Prod => prod_url(domain, page_type),
    }
}

/// The address of the test page for the settings given.
pub fn build_url(domain: &str, env: &str, unit: &str, page_type: &PageType) -> (url: String)
    ensures
        url@ == url_for(domain@, env@, unit@, *page_type),
{
    let unit_option = parse_unit(unit);
    match parse_environment(env) {
        Environment::Local => build_local_domain(domain, page_type),
        Environment::Stage => build_stage_domain(domain, unit_option, page_type),
        Environment::Prod => build_prod_domain(domain, page_type),
    }
}

} // verus!
