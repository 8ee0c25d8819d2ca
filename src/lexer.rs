use crate::parser::{chars_of, digit_of, digits, digits_end, digits_value};
use vstd::prelude::*;

verus! {

/// The tokens of the text form of domains and problems.
#[derive(Debug, Clone, PartialEq, Eq)]
pub enum Token {
    Minus,
    Plus,
    Lparen,
    Rparen,
    Hash,
    Colon,
    Comma,
    QuestionMark,
    BlackActions,
    WhiteActions,
    Action,
    Parameters,
    Precondition,
    Open,
    White,
    Black,
    X,
    Y,
    Xmin,
    Xmax,
    Ymin,
    Ymax,
    Boardsize,
    Init,
    Depth,
    BlackGoals,
    WhiteGoals,
    Effect,
    Not,
    Int(i64),
    String(String),
}

/// The position of a token's variant in the declaration of `Token`.
pub open spec fn kind_of(t: Token) -> nat {
    match t {
        Token::Minus => 0,
        Token::Plus => 1,
        Token::Lparen => 2,
        Token::Rparen => 3,
        Token::Hash => 4,
        Token::Colon => 5,
        Token::Comma => 6,
        Token::QuestionMark => 7,
        Token::BlackActions => 8,
        Token::WhiteActions => 9,
        Token::Action => 10,
        Token::Parameters => 11,
        Token::Precondition => 12,
        Token::Open => 13,
        Token::White => 14,
        Token::Black => 15,
        Token::X => 16,
        Token::Y => 17,
        Token::Xmin => 18,
        Token::Xmax => 19,
        Token::Ymin => 20,
        Token::Ymax => 21,
        Token::Boardsize => 22,
        Token::Init => 23,
        Token::Depth => 24,
        Token::BlackGoals => 25,
        Token::WhiteGoals => 26,
        Token::Effect => 27,
        Token::Not => 28,
        Token::Int(_) => 29,
        Token::String(_) => 30,
    }
}

/// A token as plain values: its kind, the text of a name, the value of an integer.
pub open spec fn token_view(t: Token) -> (nat, Seq<char>, int) {
    match t {
        Token::Int(v) => (29, seq![], v as int),
        Token::String(s) => (30, s@, 0),
        _ => (kind_of(t), seq![], 0),
    }
}

/// The kind of the one-character token `c`.
pub open spec fn symbol_kind(c: char) -> Option<nat> {
    if c == '-' {
        Some(0)
    }     else if c == '+' {
        Some(1)
    }     else if c == '(' {
        Some(2)
    }     else if c == ')' {
        Some(3)
    }     else if c == '#' {
        Some(4)
    }     else if c == ':' {
        Some(5)
    }     else if c == ',' {
        Some(6)
    }     else if c == '?' {
        Some(7)
    } else {
        None
    }
}

/// The kind of the keyword `w`, if it is one.
pub open spec fn keyword_kind(w: Seq<char>) -> Option<nat> {
    if w == seq!['b', 'l', 'a', 'c', 'k', 'a', 'c', 't', 'i', 'o', 'n', 's'] {
        Some(8)
    }     else if w == seq!['w', 'h', 'i', 't', 'e', 'a', 'c', 't', 'i', 'o', 'n', 's'] {
        Some(9)
    }     else if w == seq!['a', 'c', 't', 'i', 'o', 'n'] {
        Some(10)
    }     else if w == seq!['p', 'a', 'r', 'a', 'm', 'e', 't', 'e', 'r', 's'] {
        Some(11)
    }     else if w == seq!['p', 'r', 'e', 'c', 'o', 'n', 'd', 'i', 't', 'i', 'o', 'n'] {
        Some(12)
    }     else if w == seq!['o', 'p', 'e', 'n'] {
        Some(13)
    }     else if w == seq!['w', 'h', 'i', 't', 'e'] {
        Some(14)
    }     else if w == seq!['b', 'l', 'a', 'c', 'k'] {
        Some(15)
    }     else if w == seq!['x'] {
        Some(16)
    }     else if w == seq!['y'] {
        Some(17)
    }     else if w == seq!['x', 'm', 'i', 'n'] {
        Some(18)
    }     else if w == seq!['x', 'm', 'a', 'x'] {
        Some(19)
    }     else if w == seq!['y', 'm', 'i', 'n'] {
        Some(20)
    }     else if w == seq!['y', 'm', 'a', 'x'] {
        Some(21)
    }     else if w == seq!['b', 'o', 'a', 'r', 'd', 's', 'i', 'z', 'e'] {
        Some(22)
    }     else if w == seq!['i', 'n', 'i', 't'] {
        Some(23)
    }     else if w == seq!['d', 'e', 'p', 't', 'h'] {
        Some(24)
    }     else if w == seq!['b', 'l', 'a', 'c', 'k', 'g', 'o', 'a', 'l', 's'] {
        Some(25)
    }     else if w == seq!['b', 'l', 'a', 'c', 'k', 'g', 'o', 'a', 'l'] {
        Some(25)
    }     else if w == seq!['w', 'h', 'i', 't', 'e', 'g', 'o', 'a', 'l', 's'] {
        Some(26)
    }     else if w == seq!['w', 'h', 'i', 't', 'e', 'g', 'o', 'a', 'l'] {
        Some(26)
    }     else if w == seq!['e', 'f', 'f', 'e', 'c', 't'] {
        Some(27)
    }     else if w == seq!['N', 'O', 'T'] {
        Some(28)
    } else {
        None
    }
}

/// `c` is white space.
pub open spec fn is_space(c: char) -> bool {
    c == ' ' || c == '\t' || c == '\n' || c == '\u{b}' || c == '\u{c}' || c == '\r' || c == '\u{85}'
        || c == '\u{a0}' || c == '\u{1680}' || ('\u{2000}' <= c && c <= '\u{200a}') || c == '\u{2028}'
        || c == '\u{2029}' || c == '\u{202f}' || c == '\u{205f}' || c == '\u{3000}'
}

/// `c` is an ASCII letter.
pub open spec fn is_letter(c: char) -> bool {
    ('a' <= c && c <= 'z') || ('A' <= c && c <= 'Z')
}

/// The end of the run of ASCII letters and digits that starts at `i`.
pub open spec fn word_end(s: Seq<char>, i: int) -> int
    decreases s.len() - i,
{
    if 0 <= i < s.len() && (is_letter(s[i]) || digit_of(s[i]) >= 0) {
        word_end(s, i + 1)
    } else {
        i
    }
}

/// `t` in front of the tokens of `rest`, if there are any.
pub open spec fn prepend(t: (nat, Seq<char>, int), rest: Option<Seq<(nat, Seq<char>, int)>>) -> Option<
    Seq<(nat, Seq<char>, int)>,
> {
    match rest {
        Some(r) => Some(seq![t] + r),
        None => None,
    }
}

/// The tokens of `s` from `i` on; `None` at a character that starts no token or an
/// integer beyond `i64`. White space separates tokens. A word (a letter, then letters
/// and digits) is a keyword when it spells one, else a name; digits make an integer.
pub open spec fn lex_from(s: Seq<char>, i: int) -> Option<Seq<(nat, Seq<char>, int)>>
    decreases s.len() - i,
{
    if i < 0 || i >= s.len() {
        Some(seq![])
    } else if is_space(s[i]) {
        lex_from(s, i + 1)
    } else if let Some(k) = symbol_kind(s[i]) {
        prepend((k, seq![], 0), lex_from(s, i + 1))
    } else if is_letter(s[i]) {
        let j = word_end(s, i + 1);
        let w = s.subrange(i, j);
        let t = match keyword_kind(w) {
            Some(k) => (k, seq![], 0),
            None => (30nat, w, 0),
        };
        if i < j <= s.len() {
            prepend(t, lex_from(s, j))
        } else {
            None
        }
    } else if digit_of(s[i]) >= 0 {
        let j = digits_end(s, i);
        if i < j <= s.len() && digits_value(s, i, j) <= i64::MAX {
            prepend((29nat, seq![], digits_value(s, i, j)), lex_from(s, j))
        } else {
            None
        }
    } else {
        None
    }
}

fn space(c: char) -> (r: bool)
    ensures
        r == is_space(c),
{
    c == ' ' || c == '\t' || c == '\n' || c == '\u{b}' || c == '\u{c}' || c == '\r' || c == '\u{85}'
        || c == '\u{a0}' || c == '\u{1680}' || ('\u{2000}' <= c && c <= '\u{200a}') || c == '\u{2028}'
        || c == '\u{2029}' || c == '\u{202f}' || c == '\u{205f}' || c == '\u{3000}'
}

fn letter(c: char) -> (r: bool)
    ensures
        r == is_letter(c),
{
    ('a' <= c && c <= 'z') || ('A' <= c && c <= 'Z')
}

fn symbol(c: char) -> (r: Option<Token>)
    ensures
        r.is_some() == symbol_kind(c).is_some(),
        r.is_some() ==> token_view(r.unwrap()) == (symbol_kind(c).unwrap(), Seq::<char>::empty(), 0int),
{
    match c {
        '-' => Some(Token::Minus),
        '+' => Some(Token::Plus),
        '(' => Some(Token::Lparen),
        ')' => Some(Token::Rparen),
        '#' => Some(Token::Hash),
        ':' => Some(Token::Colon),
        ',' => Some(Token::Comma),
        '?' => Some(Token::QuestionMark),
        _ => None,
    }
}

fn is_word(w: &str, lit: &str) -> (r: bool)
    ensures
        r == (w@ == lit@),
{
    let n = lit.unicode_len();
    if w.unicode_len() != n {
        return false;
    }
    let mut i: usize = 0;
    while i < n
        invariant
            i <= n,
            n == lit@.len(),
            n == w@.len(),
            forall|t: int| 0 <= t < i ==> w@[t] == lit@[t],
        decreases n - i,
    {
        if w.get_char(i) != lit.get_char(i) {
            return false;
        }
        i = i + 1;
    }
    assert(w@ =~= lit@);
    true
}

fn keyword(w: &str) -> (r: Option<Token>)
    ensures
        r.is_some() == keyword_kind(w@).is_some(),
        r.is_some() ==> token_view(r.unwrap()) == (keyword_kind(w@).unwrap(), Seq::<char>::empty(), 0int),
{
    proof {
        reveal_strlit("blackactions");
        assert("blackactions"@ =~= seq!['b', 'l', 'a', 'c', 'k', 'a', 'c', 't', 'i', 'o', 'n', 's']);
    }
    if is_word(w, "blackactions") {
        return Some(Token::BlackActions);
    }
    proof {
        reveal_strlit("whiteactions");
        assert("whiteactions"@ =~= seq!['w', 'h', 'i', 't', 'e', 'a', 'c', 't', 'i', 'o', 'n', 's']);
    }
    if is_word(w, "whiteactions") {
        return Some(Token::WhiteActions);
    }
    proof {
        reveal_strlit("action");
        assert("action"@ =~= seq!['a', 'c', 't', 'i', 'o', 'n']);
    }
    if is_word(w, "action") {
        return Some(Token::Action);
    }
    proof {
        reveal_strlit("parameters");
        assert("parameters"@ =~= seq!['p', 'a', 'r', 'a', 'm', 'e', 't', 'e', 'r', 's']);
    }
    if is_word(w, "parameters") {
        return Some(Token::Parameters);
    }
    proof {
        reveal_strlit("precondition");
        assert("precondition"@ =~= seq!['p', 'r', 'e', 'c', 'o', 'n', 'd', 'i', 't', 'i', 'o', 'n']);
    }
    if is_word(w, "precondition") {
        return Some(Token::Precondition);
    }
    proof {
        reveal_strlit("open");
        assert("open"@ =~= seq!['o', 'p', 'e', 'n']);
    }
    if is_word(w, "open") {
        return Some(Token::Open);
    }
    proof {
        reveal_strlit("white");
        assert("white"@ =~= seq!['w', 'h', 'i', 't', 'e']);
    }
    if is_word(w, "white") {
        return Some(Token::White);
    }
    proof {
        reveal_strlit("black");
        assert("black"@ =~= seq!['b', 'l', 'a', 'c', 'k']);
    }
    if is_word(w, "black") {
        return Some(Token::Black);
    }
    proof {
        reveal_strlit("x");
        assert("x"@ =~= seq!['x']);
    }
    if is_word(w, "x") {
        return Some(Token::X);
    }
    proof {
        reveal_strlit("y");
        assert("y"@ =~= seq!['y']);
    }
    if is_word(w, "y") {
        return Some(Token::Y);
    }
    proof {
        reveal_strlit("xmin");
        assert("xmin"@ =~= seq!['x', 'm', 'i', 'n']);
    }
    if is_word(w, "xmin") {
        return Some(Token::Xmin);
    }
    proof {
        reveal_strlit("xmax");
        assert("xmax"@ =~= seq!['x', 'm', 'a', 'x']);
    }
    if is_word(w, "xmax") {
        return Some(Token::Xmax);
    }
    proof {
        reveal_strlit("ymin");
        assert("ymin"@ =~= seq!['y', 'm', 'i', 'n']);
    }
    if is_word(w, "ymin") {
        return Some(Token::Ymin);
    }
    proof {
        reveal_strlit("ymax");
        assert("ymax"@ =~= seq!['y', 'm', 'a', 'x']);
    }
    if is_word(w, "ymax") {
        return Some(Token::Ymax);
    }
    proof {
        reveal_strlit("boardsize");
        assert("boardsize"@ =~= seq!['b', 'o', 'a', 'r', 'd', 's', 'i', 'z', 'e']);
    }
    if is_word(w, "boardsize") {
        return Some(Token::Boardsize);
    }
    proof {
        reveal_strlit("init");
        assert("init"@ =~= seq!['i', 'n', 'i', 't']);
    }
    if is_word(w, "init") {
        return Some(Token::Init);
    }
    proof {
        reveal_strlit("depth");
        assert("depth"@ =~= seq!['d', 'e', 'p', 't', 'h']);
    }
    if is_word(w, "depth") {
        return Some(Token::Depth);
    }
    proof {
        reveal_strlit("blackgoals");
        assert("blackgoals"@ =~= seq!['b', 'l', 'a', 'c', 'k', 'g', 'o', 'a', 'l', 's']);
    }
    if is_word(w, "blackgoals") {
        return Some(Token::BlackGoals);
    }
    proof {
        reveal_strlit("blackgoal");
        assert("blackgoal"@ =~= seq!['b', 'l', 'a', 'c', 'k', 'g', 'o', 'a', 'l']);
    }
    if is_word(w, "blackgoal") {
        return Some(Token::BlackGoals);
    }
    proof {
        reveal_strlit("whitegoals");
        assert("whitegoals"@ =~= seq!['w', 'h', 'i', 't', 'e', 'g', 'o', 'a', 'l', 's']);
    }
    if is_word(w, "whitegoals") {
        return Some(Token::WhiteGoals);
    }
    proof {
        reveal_strlit("whitegoal");
        assert("whitegoal"@ =~= seq!['w', 'h', 'i', 't', 'e', 'g', 'o', 'a', 'l']);
    }
    if is_word(w, "whitegoal") {
        return Some(Token::WhiteGoals);
    }
    proof {
        reveal_strlit("effect");
        assert("effect"@ =~= seq!['e', 'f', 'f', 'e', 'c', 't']);
    }
    if is_word(w, "effect") {
        return Some(Token::Effect);
    }
    proof {
        reveal_strlit("NOT");
        assert("NOT"@ =~= seq!['N', 'O', 'T']);
    }
    if is_word(w, "NOT") {
        return Some(Token::Not);
    }
    None
}

fn word_end_at(s: &Vec<char>, i: usize) -> (r: usize)
    requires
        i <= s@.len(),
    ensures
        r == word_end(s@, i as int),
        i <= r <= s@.len(),
{
    let mut j = i;
    while j < s.len() && (letter(s[j]) || digit_of_exec(s[j]))
        invariant
            i <= j <= s@.len(),
            word_end(s@, i as int) == word_end(s@, j as int),
        decreases s@.len() - j,
    {
        j = j + 1;
    }
    j
}

fn digit_of_exec(c: char) -> (r: bool)
    ensures
        r == (digit_of(c) >= 0),
{
    '0' <= c && c <= '9'
}

/// The tokens of `src`; `None` at a character that starts no token or an integer
/// beyond `i64`.
pub fn lex(src: &str) -> (r: Option<Vec<Token>>)
    requires
        src@.len() + 8 <= usize::MAX,
    ensures
        r.is_some() == lex_from(src@, 0).is_some(),
        r.is_some() ==> r.unwrap()@.map_values(|t: Token| token_view(t)) == lex_from(src@, 0).unwrap(),
{
    let s = chars_of(src);
    let n = s.len();
    let mut out: Vec<Token> = Vec::new();
    let mut i: usize = 0;
    while i < n
        invariant
            i <= n,
            n == s@.len(),
            s@ == src@,
            n + 8 <= usize::MAX,
            lex_from(s@, 0) == match lex_from(s@, i as int) {
                Some(r) => Some(out@.map_values(|t: Token| token_view(t)) + r),
                None => None::<Seq<(nat, Seq<char>, int)>>,
            },
        decreases n - i,
    {
        let ghost before = out@.map_values(|t: Token| token_view(t));
        let c = s[i];
        if space(c) {
            i = i + 1;
        } else if let Some(t) = symbol(c) {
            out.push(t);
            assert(out@.map_values(|t: Token| token_view(t)) =~= before.push(token_view(t)));
            proof {
                match lex_from(s@, i + 1) {
                    Some(r) => assert(before + (seq![token_view(t)] + r) =~= before.push(token_view(t)) + r),
                    None => {},
                }
            }
            i = i + 1;
        } else if letter(c) {
            let j = word_end_at(&s, i + 1);
            let w = src.substring_char(i, j);
            let t = match keyword(w) {
                Some(t) => t,
                None => Token::String(w.to_owned()),
            };
            out.push(t);
            assert(out@.map_values(|t: Token| token_view(t)) =~= before.push(token_view(t)));
            proof {
                match lex_from(s@, j as int) {
                    Some(r) => assert(before + (seq![token_view(t)] + r) =~= before.push(token_view(t)) + r),
                    None => {},
                }
            }
            i = j;
        } else if digit_of_exec(c) {
            let (j, v) = digits(&s, i);
            if j <= i {
                return None;
            }
            match v {
                Some(v) => {
                    let t = Token::Int(v);
                    out.push(t);
                    assert(out@.map_values(|t: Token| token_view(t)) =~= before.push(token_view(t)));
                    proof {
                        match lex_from(s@, j as int) {
                            Some(r) => assert(before + (seq![token_view(t)] + r) =~= before.push(token_view(t)) + r),
                            None => {},
                        }
                    }
                    i = j;
                },
                None => return None,
            }
        } else {
            return None;
        }
    }
    assert(out@.map_values(|t: Token| token_view(t)) + seq![] =~= out@.map_values(|t: Token| token_view(t)));
    Some(out)
}

} // verus!
