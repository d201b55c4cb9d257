use crate::text::{chars_of, push_text, string_of};
use vstd::prelude::*;

verus! {

/// A piece of a text that is to be shown on a web page: a run of harmless characters, or
/// one character that must be written as an entity.
#[derive(Debug)]
pub enum Token {
    Literal(String),
    LBrace,
    RBrace,
    LAngle,
    RAngle,
    DoubleQuote,
    SingleQuote,
    Ampersand,
    LineBreak,
    Semicolon,
    Space,
}

/// What a token holds.
pub enum TokenView {
    Literal(Seq<char>),
    LBrace,
    RBrace,
    LAngle,
    RAngle,
    DoubleQuote,
    SingleQuote,
    Ampersand,
    LineBreak,
    Semicolon,
    Space,
}

impl View for Token {
    type V = TokenView;

    open spec fn view(&self) -> TokenView {
        match self {
            Token::Literal(text) => TokenView::Literal(text@),
            Token::LBrace => TokenView::LBrace,
            Token::RBrace => TokenView::RBrace,
            Token::LAngle => TokenView::LAngle,
            Token::RAngle => TokenView::RAngle,
            Token::DoubleQuote => TokenView::DoubleQuote,
            Token::SingleQuote => TokenView::SingleQuote,
            Token::Ampersand => TokenView::Ampersand,
            Token::LineBreak => TokenView::LineBreak,
            Token::Semicolon => TokenView::Semicolon,
            Token::Space => TokenView::Space,
        }
    }
}

/// What a sequence of tokens holds.
pub open spec fn views(tokens: Seq<Token>) -> Seq<TokenView> {
    Seq::new(tokens.len(), |k: int| tokens[k]@)
}

/// The tokens with the pending literal behind them, if there is one.
pub open spec fn flushed(tokens: Seq<TokenView>, literal: Seq<char>) -> Seq<TokenView> {
    if literal.len() > 0 {
        tokens.push(TokenView::Literal(literal))
    } else {
        tokens
    }
}

/// Posts the pending literal as a token and empties it; says whether there was one.
pub fn post_literal(tokens: &mut Vec<Token>, literal: &mut String) -> (posted: bool)
    ensures
        posted == (old(literal)@.len() > 0),
        views(final(tokens)@) == flushed(views(old(tokens)@), old(literal)@),
        posted ==> final(literal)@ == Seq::<char>::empty(),
        !posted ==> final(literal)@ == old(literal)@,
{
    if !literal.as_str().is_empty() {
        tokens.push(Token::Literal(literal.clone()));
        *literal = String::new();
        assert(views(tokens@) =~= views(old(tokens)@).push(TokenView::Literal(old(literal)@)));
        true
    } else {
        assert(views(tokens@) =~= views(old(tokens)@));
        false
    }
}

/// The token for a character that is not written as it is.
pub open spec fn special(c: char) -> Option<TokenView> {
    if c == '{' {
        Some(TokenView::LBrace)
    } else if c == '}' {
        Some(TokenView::RBrace)
    } else if c == '<' {
        Some(TokenView::LAngle)
    } else if c == '>' {
        Some(TokenView::RAngle)
    } else if c == '"' {
        Some(TokenView::DoubleQuote)
    } else if c == '\'' {
        Some(TokenView::SingleQuote)
    } else if c == '&' {
        Some(TokenView::Ampersand)
    } else if c == '\n' {
        Some(TokenView::LineBreak)
    } else if c == ';' {
        Some(TokenView::Semicolon)
    } else if c == ' ' {
        Some(TokenView::Space)
    } else {
        None
    }
}

/// The tokens and the pending literal after the first `n` characters of a line.
pub open spec fn scanned(
    chars: Seq<char>,
    n: int,
    tokens: Seq<TokenView>,
    literal: Seq<char>,
) -> (Seq<TokenView>, Seq<char>)
    decreases n,
{
    if n <= 0 {
        (tokens, literal)
    } else {
        let before = scanned(chars, n - 1, tokens, literal);
        match special(chars[n - 1]) {
            Some(token) => (flushed(before.0, before.1).push(token), Seq::<char>::empty()),
            None => (before.0, before.1.push(chars[n - 1])),
        }
    }
}

/// The tokens after a whole line: those of its characters, the pending literal and a line
/// break.
pub open spec fn line_tokens(tokens: Seq<TokenView>, line: Seq<char>) -> Seq<TokenView> {
    let after = scanned(line, line.len() as int, tokens, Seq::<char>::empty());
    flushed(after.0, after.1).push(TokenView::LineBreak)
}

/// The tokens of the first `n` lines.
pub open spec fn lines_tokens(lines: Seq<String>, n: int) -> Seq<TokenView>
    decreases n,
{
    if n <= 0 {
        Seq::<TokenView>::empty()
    } else {
        line_tokens(lines_tokens(lines, n - 1), lines[n - 1]@)
    }
}

/// The token for a character that is not written as it is.
fn special_token(c: char) -> (token: Option<Token>)
    ensures
        match token {
            Some(t) => special(c) == Some(t@),
            None => special(c) is None,
        },
{
    match c {
        '{' => Some(Token::LBrace),
        '}' => Some(Token::RBrace),
        '<' => Some(Token::LAngle),
        '>' => Some(Token::RAngle),
        '"' => Some(Token::DoubleQuote),
        '\'' => Some(Token::SingleQuote),
        '&' => Some(Token::Ampersand),
        '\n' => Some(Token::LineBreak),
        ';' => Some(Token::Semicolon),
        ' ' => Some(Token::Space),
        _ => None,
    }
}

/// Takes one line apart and puts its tokens behind `tokens`.
pub fn tokenize_line(tokens: &mut Vec<Token>, line: &str)
    ensures
        views(final(tokens)@) == line_tokens(views(old(tokens)@), line@),
{
    let chars = chars_of(line);
    let mut literal = String::new();
    let mut k: usize = 0;
    while k < chars.len()
        invariant
            k <= chars@.len(),
            chars@ == line@,
            (views(tokens@), literal@) == scanned(
                line@,
                k as int,
                views(old(tokens)@),
                Seq::<char>::empty(),
            ),
        decreases chars@.len() - k,
    {
        let c = chars[k];
        match special_token(c) {
            Some(token) => {
                post_literal(tokens, &mut literal);
                let ghost before = views(tokens@);
                tokens.push(token);
                assert(views(tokens@) =~= before.push(token@));
            },
            None => {
                literal.push(c);
            },
        }
        k += 1;
    }
    post_literal(tokens, &mut literal);
    let ghost before = views(tokens@);
    tokens.push(Token::LineBreak);
    assert(views(tokens@) =~= before.push(TokenView::LineBreak));
}

/// Takes the lines of a text apart into tokens.
pub fn tokenize_lines(lines: &Vec<String>) -> (tokens: Vec<Token>)
    ensures
        views(tokens@) == lines_tokens(lines@, lines@.len() as int),
{
    let mut tokens: Vec<Token> = Vec::new();
    let mut k: usize = 0;
    assert(views(tokens@) =~= Seq::<TokenView>::empty());
    while k < lines.len()
        invariant
            k <= lines@.len(),
            views(tokens@) == lines_tokens(lines@, k as int),
        decreases lines@.len() - k,
    {
        tokenize_line(&mut tokens, lines[k].as_str());
        k += 1;
    }
    tokens
}

/// How a token is written on a web page.
pub open spec fn token_text(token: TokenView) -> Seq<char> {
    match token {
        TokenView::Literal(text) => text,
        TokenView::LBrace => "&lbrace;"@,
        TokenView::RBrace => "&rbrace;"@,
        TokenView::LAngle => "&lt;"@,
        TokenView::RAngle => "&gt;"@,
        TokenView::DoubleQuote => "&quot;"@,
        TokenView::SingleQuote => "&apos;"@,
        TokenView::Ampersand => "&amp;"@,
        TokenView::LineBreak => "<br />"@,
        TokenView::Semicolon => "&semi;"@,
        TokenView::Space => " "@,
    }
}

/// How the first `n` tokens are written on a web page.
pub open spec fn encoded(tokens: Seq<TokenView>, n: int) -> Seq<char>
    decreases n,
{
    if n <= 0 {
        Seq::<char>::empty()
    } else {
        encoded(tokens, n - 1) + token_text(tokens[n - 1])
    }
}

/// Writes the tokens as they are to stand on a web page.
pub fn encode_html(tokens: Vec<Token>) -> (result: String)
    ensures
        result@ == encoded(views(tokens@), tokens@.len() as int),
{
    let mut out: Vec<char> = Vec::new();
    let mut k: usize = 0;
    while k < tokens.len()
        invariant
            k <= tokens@.len(),
            out@ == encoded(views(tokens@), k as int),
        decreases tokens@.len() - k,
    {
        assert(views(tokens@)[k as int] == tokens@[k as int]@);
        match &tokens[k] {
            Token::Literal(text) => push_text(&mut out, text.as_str()),
            Token::LBrace => push_text(&mut out, "&lbrace;"),
            Token::RBrace => push_text(&mut out, "&rbrace;"),
            Token::LAngle => push_text(&mut out, "&lt;"),
            Token::RAngle => push_text(&mut out, "&gt;"),
            Token::DoubleQuote => push_text(&mut out, "&quot;"),
            Token::SingleQuote => push_text(&mut out, "&apos;"),
            Token::Ampersand => push_text(&mut out, "&amp;"),
            Token::LineBreak => push_text(&mut out, "<br />"),
            Token::Semicolon => push_text(&mut out, "&semi;"),
            Token::Space => push_text(&mut out, " "),
        }
        k += 1;
    }
    string_of(&out)
}

} // verus!
