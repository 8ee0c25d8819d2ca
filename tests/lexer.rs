use bddl::lexer::{lex, Token};

#[test]
fn lexes_symbols_keywords_names_and_integers() {
    let toks = lex("blackactions: action fill ?x+1 -2 #\n(,)").unwrap();
    assert_eq!(
        toks,
        vec![
            Token::BlackActions,
            Token::Colon,
            Token::Action,
            Token::String("fill".to_string()),
            Token::QuestionMark,
            Token::X,
            Token::Plus,
            Token::Int(1),
            Token::Minus,
            Token::Int(2),
            Token::Hash,
            Token::Lparen,
            Token::Comma,
            Token::Rparen,
        ]
    );
}

#[test]
fn longest_word_decides_between_keyword_and_name() {
    let toks = lex("xmin xmax ymin ymax x y xminy NOT notx blackgoal whitegoals 007 12ab").unwrap();
    assert_eq!(
        toks,
        vec![
            Token::Xmin,
            Token::Xmax,
            Token::Ymin,
            Token::Ymax,
            Token::X,
            Token::Y,
            Token::String("xminy".to_string()),
            Token::Not,
            Token::String("notx".to_string()),
            Token::BlackGoals,
            Token::WhiteGoals,
            Token::Int(7),
            Token::Int(12),
            Token::String("ab".to_string()),
        ]
    );
}

#[test]
fn rejects_strange_characters_and_huge_integers() {
    assert_eq!(lex("a$b"), None);
    assert_eq!(lex("99999999999999999999"), None);
    assert_eq!(lex(""), Some(vec![]));
    assert_eq!(lex(" \t\r\n"), Some(vec![]));
    assert_eq!(
        lex("boardsize init depth effect precondition parameters open white black whiteactions"),
        Some(vec![
            Token::Boardsize,
            Token::Init,
            Token::Depth,
            Token::Effect,
            Token::Precondition,
            Token::Parameters,
            Token::Open,
            Token::White,
            Token::Black,
            Token::WhiteActions,
        ])
    );
}
