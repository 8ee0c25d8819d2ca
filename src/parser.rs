use crate::bddl::{Condition, Pred, SubCondition, E};
use vstd::prelude::*;
use vstd::string::StrSliceExecFns;

verus! {

/// The value of a decimal digit, or -1 for any other character.
pub open spec fn digit_of(c: char) -> int {
    if c == '0' {
        0
    } else if c == '1' {
        1
    } else if c == '2' {
        2
    } else if c == '3' {
        3
    } else if c == '4' {
        4
    } else if c == '5' {
        5
    } else if c == '6' {
        6
    } else if c == '7' {
        7
    } else if c == '8' {
        8
    } else if c == '9' {
        9
    } else {
        -1
    }
}

/// The end of the run of spaces and tabs that starts at `i`.
pub open spec fn space_end(s: Seq<char>, i: int) -> int
    decreases s.len() - i,
{
    if 0 <= i < s.len() && (s[i] == ' ' || s[i] == '\t') {
        space_end(s, i + 1)
    } else {
        i
    }
}

/// The end of the run of digits that starts at `i`.
pub open spec fn digits_end(s: Seq<char>, i: int) -> int
    decreases s.len() - i,
{
    if 0 <= i < s.len() && digit_of(s[i]) >= 0 {
        digits_end(s, i + 1)
    } else {
        i
    }
}

/// The decimal value of the digits `s[i..j]`.
pub open spec fn digits_value(s: Seq<char>, i: int, j: int) -> int
    decreases j - i,
{
    if j <= i {
        0
    } else {
        digits_value(s, i, j - 1) * 10 + digit_of(s[j - 1])
    }
}

/// `s` holds `lit` from `i` on.
pub open spec fn has_at(s: Seq<char>, i: int, lit: Seq<char>) -> bool {
    0 <= i && i + lit.len() <= s.len() && s.subrange(i, i + lit.len()) == lit
}

/// `c` names an axis.
pub open spec fn is_axis(c: char) -> bool {
    c == 'x' || c == 'y'
}

/// `?x <op> <digits>` (or `?y`), spaces allowed around the operator: the offset and the
/// end; `None` when the digits overflow `i64`.
pub open spec fn parse_offset(s: Seq<char>, i: int, op: char) -> Option<(i64, int)> {
    if 0 <= i && i + 1 < s.len() && s[i] == '?' && is_axis(s[i + 1]) {
        let j = space_end(s, i + 2);
        if j < s.len() && s[j] == op {
            let k = space_end(s, j + 1);
            let m = digits_end(s, k);
            if m > k && digits_value(s, k, m) <= i64::MAX {
                Some((digits_value(s, k, m) as i64, m))
            } else {
                None
            }
        } else {
            None
        }
    } else {
        None
    }
}

/// A coordinate expression at `i`: `?x + n`, `?x - n`, `?x`, `xmax`, `xmin` (or `y`), tried
/// in that order.
pub open spec fn parse_e(s: Seq<char>, i: int) -> Option<(E, int)> {
    if let Some((v, m)) = parse_offset(s, i, '+') {
        Some((E::Add(v), m))
    } else if let Some((v, m)) = parse_offset(s, i, '-') {
        Some((E::Sub(v), m))
    } else if 0 <= i && i + 1 < s.len() && s[i] == '?' && is_axis(s[i + 1]) {
        Some((E::Identity, i + 2))
    } else if 0 <= i < s.len() && is_axis(s[i]) && has_at(s, i + 1, seq!['m', 'a', 'x']) {
        Some((E::Max, i + 4))
    } else if 0 <= i < s.len() && is_axis(s[i]) && has_at(s, i + 1, seq!['m', 'i', 'n']) {
        Some((E::Min, i + 4))
    } else {
        None
    }
}

/// A cell state at `i`: `open`, `black` or `white`.
pub open spec fn parse_pred(s: Seq<char>, i: int) -> Option<(Pred, int)> {
    if has_at(s, i, seq!['o', 'p', 'e', 'n']) {
        Some((Pred::Open, i + 4))
    } else if has_at(s, i, seq!['b', 'l', 'a', 'c', 'k']) {
        Some((Pred::Black, i + 5))
    } else if has_at(s, i, seq!['w', 'h', 'i', 't', 'e']) {
        Some((Pred::White, i + 5))
    } else {
        None
    }
}

/// `pred(e, e)` at `i`, spaces allowed after the comma.
pub open spec fn parse_claim(s: Seq<char>, i: int) -> Option<(Pred, E, E, int)> {
    if let Some((p, j)) = parse_pred(s, i) {
        if has_at(s, j, seq!['(']) {
            if let Some((x_e, k)) = parse_e(s, j + 1) {
                if has_at(s, k, seq![',']) {
                    if let Some((y_e, m)) = parse_e(s, space_end(s, k + 1)) {
                        if has_at(s, m, seq![')']) {
                            Some((p, x_e, y_e, m + 1))
                        } else {
                            None
                        }
                    } else {
                        None
                    }
                } else {
                    None
                }
            } else {
                None
            }
        } else {
            None
        }
    } else {
        None
    }
}

/// A sub-condition at `i`, with the spaces around it: a claim, or `NOT(claim)`.
#[verifier::opaque]
pub open spec fn parse_sub(s: Seq<char>, i: int) -> Option<(SubCondition, int)> {
    let j = space_end(s, i);
    if let Some((p, x_e, y_e, k)) = parse_claim(s, j) {
        Some((SubCondition::Id { pred: p, x_e, y_e }, space_end(s, k)))
    } else if has_at(s, j, seq!['N', 'O', 'T', '(']) {
        if let Some((p, x_e, y_e, k)) = parse_claim(s, j + 4) {
            if has_at(s, k, seq![')']) {
                Some((SubCondition::Not { pred: p, x_e, y_e }, space_end(s, k + 1)))
            } else {
                None
            }
        } else {
            None
        }
    } else {
        None
    }
}

/// As many sub-conditions as follow one another from `i`, and where they end.
pub open spec fn parse_subs(s: Seq<char>, i: int) -> (Seq<SubCondition>, int)
    decreases s.len() - i,
{
    if let Some((sc, j)) = parse_sub(s, i) {
        if i < j <= s.len() {
            let (rest, e) = parse_subs(s, j);
            (seq![sc] + rest, e)
        } else {
            (seq![], i)
        }
    } else {
        (seq![], i)
    }
}


/// An exec result with a `usize` end agrees with a spec result with an `int` end.
pub open spec fn agrees<A>(r: Option<(A, usize)>, t: Option<(A, int)>) -> bool {
    match (r, t) {
        (Some((a, i)), Some((b, j))) => a == b && i as int == j,
        (None, None) => true,
        _ => false,
    }
}

fn digit(c: char) -> (r: Option<i64>)
    ensures
        r.is_some() == (digit_of(c) >= 0),
        r.is_some() ==> r.unwrap() == digit_of(c),
{
    match c {
        '0' => Some(0),
        '1' => Some(1),
        '2' => Some(2),
        '3' => Some(3),
        '4' => Some(4),
        '5' => Some(5),
        '6' => Some(6),
        '7' => Some(7),
        '8' => Some(8),
        '9' => Some(9),
        _ => None,
    }
}

fn space0(s: &Vec<char>, i: usize) -> (r: usize)
    requires
        i <= s@.len(),
        s@.len() + 8 <= usize::MAX,
    ensures
        r == space_end(s@, i as int),
        i <= r <= s@.len(),
{
    let mut j = i;
    while j < s.len() && (s[j] == ' ' || s[j] == '\t')
        invariant
            i <= j <= s@.len(),
            space_end(s@, i as int) == space_end(s@, j as int),
        decreases s@.len() - j,
    {
        j = j + 1;
    }
    j
}

fn has_chars(s: &Vec<char>, i: usize, lit: &Vec<char>) -> (r: bool)
    requires
        s@.len() + 8 <= usize::MAX,
    ensures
        r == has_at(s@, i as int, lit@),
{
    if i > s.len() || lit.len() > s.len() - i {
        return false;
    }
    let mut k: usize = 0;
    while k < lit.len()
        invariant
            i + lit@.len() <= s@.len(),
            s@.len() + 8 <= usize::MAX,
            i <= s@.len(),
            k <= lit@.len(),
            forall|t: int| 0 <= t < k ==> s@[i + t] == lit@[t],
        decreases lit@.len() - k,
    {
        assert(i + k < s@.len());
        if s[i + k] != lit[k] {
            assert(s@.subrange(i as int, i + lit@.len())[k as int] != lit@[k as int]);
            return false;
        }
        k = k + 1;
    }
    assert(s@.subrange(i as int, i + lit@.len()) =~= lit@);
    true
}

fn axis_at(s: &Vec<char>, i: usize) -> (r: bool)
    ensures
        r == (i < s@.len() && is_axis(s@[i as int])),
{
    i < s.len() && (s[i] == 'x' || s[i] == 'y')
}

/// The digits from `k`: where they end, and their value unless it overflows `i64`.
pub(crate) fn digits(s: &Vec<char>, k: usize) -> (r: (usize, Option<i64>))
    requires
        k <= s@.len(),
        s@.len() + 8 <= usize::MAX,
    ensures
        r.0 == digits_end(s@, k as int),
        k <= r.0 <= s@.len(),
        r.1.is_some() == (digits_value(s@, k as int, r.0 as int) <= i64::MAX),
        r.1.is_some() ==> r.1.unwrap() == digits_value(s@, k as int, r.0 as int),
{
    let mut j = k;
    let mut v: i64 = 0;
    let mut overflow = false;
    while j < s.len() && digit(s[j]).is_some()
        invariant
            k <= j <= s@.len(),
            digits_end(s@, k as int) == digits_end(s@, j as int),
            digits_value(s@, k as int, j as int) >= 0,
            !overflow ==> v == digits_value(s@, k as int, j as int),
            overflow ==> digits_value(s@, k as int, j as int) > i64::MAX,
        decreases s@.len() - j,
    {
        let d = match digit(s[j]) {
            Some(d) => d,
            None => 0,
        };
        if !overflow {
            if v > (i64::MAX - d) / 10 {
                proof {
                    assert(v * 10 + d > i64::MAX) by (nonlinear_arith)
                        requires
                            v > (i64::MAX - d) / 10,
                            0 <= d <= 9,
                    ;
                }
                overflow = true;
            } else {
                proof {
                    assert(v * 10 + d <= i64::MAX) by (nonlinear_arith)
                        requires
                            v <= (i64::MAX - d) / 10,
                            0 <= d <= 9,
                            v >= 0,
                    ;
                }
                v = v * 10 + d;
            }
        }
        j = j + 1;
    }
    if overflow {
        (j, None)
    } else {
        (j, Some(v))
    }
}

/// `?x <op> <digits>` at `i`.
fn e_offset(s: &Vec<char>, i: usize, op: char) -> (r: Option<(i64, usize)>)
    requires
        i <= s@.len(),
        s@.len() + 8 <= usize::MAX,
    ensures
        agrees(r, parse_offset(s@, i as int, op)),
        r.is_some() ==> r.unwrap().1 <= s@.len(),
{
    if !(i + 1 < s.len() && s[i] == '?' && axis_at(s, i + 1)) {
        return None;
    }
    let j = space0(s, i + 2);
    if !(j < s.len() && s[j] == op) {
        return None;
    }
    let k = space0(s, j + 1);
    let (m, v) = digits(s, k);
    if m > k {
        match v {
            Some(v) => Some((v, m)),
            None => None,
        }
    } else {
        None
    }
}

/// A coordinate expression at `i`.
fn e(s: &Vec<char>, i: usize) -> (r: Option<(E, usize)>)
    requires
        i <= s@.len(),
        s@.len() + 8 <= usize::MAX,
    ensures
        agrees(r, parse_e(s@, i as int)),
        r.is_some() ==> r.unwrap().1 <= s@.len(),
{
    if let Some((v, m)) = e_offset(s, i, '+') {
        return Some((E::Add(v), m));
    }
    if let Some((v, m)) = e_offset(s, i, '-') {
        return Some((E::Sub(v), m));
    }
    if i + 1 < s.len() && s[i] == '?' && axis_at(s, i + 1) {
        return Some((E::Identity, i + 2));
    }
    if axis_at(s, i) && has_chars(s, i + 1, &vec!['m', 'a', 'x']) {
        return Some((E::Max, i + 4));
    }
    if axis_at(s, i) && has_chars(s, i + 1, &vec!['m', 'i', 'n']) {
        return Some((E::Min, i + 4));
    }
    None
}

/// A cell state at `i`.
fn pred(s: &Vec<char>, i: usize) -> (r: Option<(Pred, usize)>)
    requires
        i <= s@.len(),
        s@.len() + 8 <= usize::MAX,
    ensures
        agrees(r, parse_pred(s@, i as int)),
        r.is_some() ==> r.unwrap().1 <= s@.len(),
{
    if has_chars(s, i, &vec!['o', 'p', 'e', 'n']) {
        Some((Pred::Open, i + 4))
    } else if has_chars(s, i, &vec!['b', 'l', 'a', 'c', 'k']) {
        Some((Pred::Black, i + 5))
    } else if has_chars(s, i, &vec!['w', 'h', 'i', 't', 'e']) {
        Some((Pred::White, i + 5))
    } else {
        None
    }
}

/// `pred(e, e)` at `i`.
fn sub_cond_pred(s: &Vec<char>, i: usize) -> (r: Option<(Pred, E, E, usize)>)
    requires
        i <= s@.len(),
        s@.len() + 8 <= usize::MAX,
    ensures
        match (r, parse_claim(s@, i as int)) {
            (Some((p, x, y, j)), Some((q, u, w, k))) => p == q && x == u && y == w && j as int == k,
            (None, None) => true,
            _ => false,
        },
        r.is_some() ==> r.unwrap().3 <= s@.len(),
{
    let (p, j) = match pred(s, i) {
        Some(r) => r,
        None => return None,
    };
    let open_paren = vec!['('];
    let comma = vec![','];
    let close_paren = vec![')'];
    assert(open_paren@ =~= seq!['(']);
    assert(comma@ =~= seq![',']);
    assert(close_paren@ =~= seq![')']);
    if !has_chars(s, j, &open_paren) {
        return None;
    }
    let (x_e, k) = match e(s, j + 1) {
        Some(r) => r,
        None => return None,
    };
    if !has_chars(s, k, &comma) {
        return None;
    }
    let (y_e, m) = match e(s, space0(s, k + 1)) {
        Some(r) => r,
        None => return None,
    };
    if !has_chars(s, m, &close_paren) {
        return None;
    }
    Some((p, x_e, y_e, m + 1))
}

/// A sub-condition at `i`, with the spaces around it.
fn sub_cond(s: &Vec<char>, i: usize) -> (r: Option<(SubCondition, usize)>)
    requires
        i <= s@.len(),
        s@.len() + 8 <= usize::MAX,
    ensures
        agrees(r, parse_sub(s@, i as int)),
        r.is_some() ==> r.unwrap().1 <= s@.len(),
{
    reveal(parse_sub);
    let j = space0(s, i);
    if let Some((p, x_e, y_e, k)) = sub_cond_pred(s, j) {
        return Some((SubCondition::Id { pred: p, x_e, y_e }, space0(s, k)));
    }
    let not_open = vec!['N', 'O', 'T', '('];
    let close_paren = vec![')'];
    assert(not_open@ =~= seq!['N', 'O', 'T', '(']);
    assert(close_paren@ =~= seq![')']);
    if has_chars(s, j, &not_open) {
        if let Some((p, x_e, y_e, k)) = sub_cond_pred(s, j + 4) {
            if has_chars(s, k, &close_paren) {
                return Some((SubCondition::Not { pred: p, x_e, y_e }, space0(s, k + 1)));
            }
        }
    }
    None
}

/// The characters of `input`.
pub(crate) fn chars_of(input: &str) -> (r: Vec<char>)
    ensures
        r@ == input@,
{
    let n = input.unicode_len();
    let mut s: Vec<char> = Vec::new();
    let mut i: usize = 0;
    while i < n
        invariant
            i <= n,
            n == input@.len(),
            s@ == input@.take(i as int),
        decreases n - i,
    {
        s.push(input.get_char(i));
        i = i + 1;
        assert(s@ =~= input@.take(i as int));
    }
    assert(s@ =~= input@);
    s
}

/// Reads as many sub-conditions as follow one another at the start of `input`: the
/// rest of the input, and the condition they make.
pub fn condition(input: &str) -> (r: (&str, Condition))
    requires
        input@.len() + 8 <= usize::MAX,
    ensures
        r.1.sub_cond@ == parse_subs(input@, 0).0,
        r.0@ == input@.subrange(parse_subs(input@, 0).1, input@.len() as int),
{
    let s = chars_of(input);
    let n = s.len();
    let mut subs: Vec<SubCondition> = Vec::new();
    let mut pos: usize = 0;
    let mut done = false;
    while !done
        invariant
            pos <= s@.len(),
            s@ == input@,
            s@.len() + 8 <= usize::MAX,
            parse_subs(s@, 0).0 == subs@ + parse_subs(s@, pos as int).0,
            parse_subs(s@, 0).1 == parse_subs(s@, pos as int).1,
            done ==> parse_subs(s@, pos as int).0 == Seq::<SubCondition>::empty(),
            done ==> parse_subs(s@, pos as int).1 == pos,
        decreases s@.len() - pos + if done {
            0int
        } else {
            1int
        },
    {
        match sub_cond(&s, pos) {
            Some((sc, j)) => {
                if j <= pos {
                    done = true;
                } else {
                    let ghost rest = parse_subs(s@, j as int);
                    assert(parse_subs(s@, pos as int) == (seq![sc] + rest.0, rest.1));
                    subs.push(sc);
                    assert(subs@ + rest.0 =~= subs@.drop_last() + (seq![sc] + rest.0));
                    pos = j;
                }
            },
            None => {
                done = true;
            },
        }
    }
    assert(subs@ + seq![] =~= subs@);
    (input.substring_char(pos, n), Condition { sub_cond: subs })
}

} // verus!
