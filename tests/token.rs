use mdplayscript::token::{lex, TextToken};
use mdplayscript::{find_one_of, find_puncts_end};

fn literal(t: &TextToken) -> String {
    match t {
        TextToken::PlainText(s) => s.clone(),
        TextToken::Rangle => ">".to_owned(),
        TextToken::RangleRun(n) => ">".repeat(*n),
        TextToken::LeftParen => "(".to_owned(),
        TextToken::LeftParenRun(n) => "(".repeat(*n),
        TextToken::RightParen => ")".to_owned(),
        TextToken::RightParenRun(n) => ")".repeat(*n),
    }
}

#[test]
fn lexer_splits_runs_of_punctuation() {
    assert_eq!(lex("A (x))>> y"), vec![
        TextToken::PlainText("A ".into()),
        TextToken::LeftParen,
        TextToken::PlainText("x".into()),
        TextToken::RightParenRun(2),
        TextToken::RangleRun(2),
        TextToken::PlainText(" y".into()),
    ]);
    assert_eq!(lex(""), vec![]);
    assert_eq!(lex(")>"), vec![TextToken::RightParen, TextToken::Rangle]);
}

#[test]
fn lexer_tokens_give_the_text_back() {
    for s in ["", "plain", "A> Hi", "((a)) >> (b", "é (ü)> ñ", ")))"] {
        let joined: String = lex(s).iter().map(literal).collect();
        assert_eq!(joined, s);
    }
}

#[test]
fn find_one_of_gives_char_index() {
    assert_eq!(find_one_of("ab(c)", "()"), Some((2, '(')));
    assert_eq!(find_one_of("éé)", "()"), Some((2, ')')));
    assert_eq!(find_one_of("abc", "()"), None);
}

#[test]
fn find_puncts_end_splits_after_the_run() {
    assert_eq!(find_puncts_end("((x", '('), ("((", "x"));
    assert_eq!(find_puncts_end(">>>", '>'), (">>>", ""));
}
