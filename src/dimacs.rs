use crate::qbf::{clauses_view, Atom, Formula, Quantifier};
use std::collections::HashMap;
use vstd::prelude::*;

verus! {

broadcast use vstd::std_specs::hash::group_hash_axioms;

/// The decimal digit `d`.
pub open spec fn digit_char(d: nat) -> char {
    if d == 0 {
        '0'
    } else if d == 1 {
        '1'
    } else if d == 2 {
        '2'
    } else if d == 3 {
        '3'
    } else if d == 4 {
        '4'
    } else if d == 5 {
        '5'
    } else if d == 6 {
        '6'
    } else if d == 7 {
        '7'
    } else if d == 8 {
        '8'
    } else {
        '9'
    }
}

/// The decimal notation of `n`, without leading zeros.
pub open spec fn decimal(n: nat) -> Seq<char>
    decreases n,
{
    if n < 10 {
        seq![digit_char(n)]
    } else {
        decimal(n / 10) + seq![digit_char(n % 10)]
    }
}

/// Every atom of the prefix, then every literal of the clauses, in order.
pub open spec fn atoms_of(p: Seq<(Quantifier, Atom)>, m: Seq<Seq<Atom>>) -> Seq<Atom> {
    p.map_values(|e: (Quantifier, Atom)| e.1) + m.flatten_alt()
}

/// The number of distinct variables in `s`.
pub open spec fn distinct_count(s: Seq<Atom>) -> nat
    decreases s.len(),
{
    if s.len() == 0 {
        0
    } else if numbering(s.drop_last()).contains_key(s.last().var) {
        distinct_count(s.drop_last())
    } else {
        distinct_count(s.drop_last()) + 1
    }
}

/// The dense renumbering of the variables of `s`: 1, 2, ... in order of first
/// appearance.
pub open spec fn numbering(s: Seq<Atom>) -> Map<u64, nat>
    decreases s.len(),
{
    if s.len() == 0 {
        Map::empty()
    } else {
        let m = numbering(s.drop_last());
        if m.contains_key(s.last().var) {
            m
        } else {
            m.insert(s.last().var, distinct_count(s.drop_last()) + 1)
        }
    }
}

/// The renumbered literal `a`: its new id, with a leading `-` when negative.
pub open spec fn literal_text(a: Atom, ren: Map<u64, nat>) -> Seq<char> {
    if a.positive {
        decimal(ren[a.var])
    } else {
        seq!['-'] + decimal(ren[a.var])
    }
}

/// The letter of a quantifier block.
pub open spec fn quantifier_char(q: Quantifier) -> char {
    match q {
        Quantifier::Forall => 'a',
        Quantifier::Exists => 'e',
    }
}

/// The block terminator `" 0\n"`.
pub open spec fn block_end() -> Seq<char> {
    seq![' ', '0', '\n']
}

/// What prefix entry `i` adds to the quantifier lines: when it starts a run of its
/// kind, the end of the previous line and the run's letter; then its id.
pub open spec fn quantifier_piece(p: Seq<(Quantifier, Atom)>, i: int, ren: Map<u64, nat>) -> Seq<
    char,
> {
    let starts = i == 0 || p[i].0 != p[i - 1].0;
    let head = if starts {
        if i > 0 {
            block_end() + seq![quantifier_char(p[i].0)]
        } else {
            seq![quantifier_char(p[i].0)]
        }
    } else {
        seq![]
    };
    head + seq![' '] + literal_text(p[i].1, ren)
}

/// The pieces of the first `k` prefix entries.
pub open spec fn quantifier_pieces(p: Seq<(Quantifier, Atom)>, ren: Map<u64, nat>, k: nat) -> Seq<
    char,
>
    decreases k,
{
    if k == 0 {
        seq![]
    } else {
        quantifier_pieces(p, ren, (k - 1) as nat) + quantifier_piece(p, k - 1, ren)
    }
}

/// One line per maximal run of equal quantifier kinds, in order.
pub open spec fn quantifier_lines(p: Seq<(Quantifier, Atom)>, ren: Map<u64, nat>) -> Seq<char> {
    if p.len() == 0 {
        seq![]
    } else {
        quantifier_pieces(p, ren, p.len()) + block_end()
    }
}

/// The first `k` literals of a clause, each followed by a space.
pub open spec fn clause_literals(c: Seq<Atom>, ren: Map<u64, nat>, k: nat) -> Seq<char>
    decreases k,
{
    if k == 0 {
        seq![]
    } else {
        clause_literals(c, ren, (k - 1) as nat) + literal_text(c[k - 1], ren) + seq![' ']
    }
}

/// The line of a clause: its literals, then `0`.
pub open spec fn clause_line(c: Seq<Atom>, ren: Map<u64, nat>) -> Seq<char> {
    clause_literals(c, ren, c.len()) + seq!['0', '\n']
}

/// The lines of the first `k` clauses.
pub open spec fn clause_lines(m: Seq<Seq<Atom>>, ren: Map<u64, nat>, k: nat) -> Seq<char>
    decreases k,
{
    if k == 0 {
        seq![]
    } else {
        clause_lines(m, ren, (k - 1) as nat) + clause_line(m[k - 1], ren)
    }
}

/// The header line `p cnf <variables> <clauses>`.
pub open spec fn header(vars: nat, clauses: nat) -> Seq<char> {
    seq!['p', ' ', 'c', 'n', 'f', ' '] + decimal(vars) + seq![' '] + decimal(clauses) + seq!['\n']
}

/// The QDIMACS text of a prefix and a clause matrix.
pub open spec fn qdimacs_text(p: Seq<(Quantifier, Atom)>, m: Seq<Seq<Atom>>) -> Seq<char> {
    let all = atoms_of(p, m);
    let ren = numbering(all);
    header(distinct_count(all), m.len()) + quantifier_lines(p, ren) + clause_lines(m, ren, m.len())
}


proof fn lemma_numbering_range(s: Seq<Atom>)
    ensures
        forall|v: u64| #[trigger]
            numbering(s).contains_key(v) ==> 1 <= numbering(s)[v] <= distinct_count(s),
        forall|i: int| 0 <= i < s.len() ==> numbering(s).contains_key(#[trigger] s[i].var),
    decreases s.len(),
{
    if s.len() > 0 {
        let init = s.drop_last();
        lemma_numbering_range(init);
        assert forall|v: u64| #[trigger] numbering(s).contains_key(v) implies 1 <= numbering(s)[v]
            <= distinct_count(s) by {
            if numbering(init).contains_key(v) {
                assert(numbering(s)[v] == numbering(init)[v]);
            }
        }
        assert forall|i: int| 0 <= i < s.len() implies numbering(s).contains_key(#[trigger] s[i].var) by {
            if i < s.len() - 1 {
                assert(s.drop_last()[i] == s[i]);
            }
        }
    }
}

proof fn lemma_in_flatten(m: Seq<Seq<Atom>>, j: int, k: int)
    requires
        0 <= j < m.len(),
        0 <= k < m[j].len(),
    ensures
        exists|x: int| 0 <= x < m.flatten_alt().len() && #[trigger] m.flatten_alt()[x] == m[j][k],
    decreases m.len(),
{
    let init = m.drop_last();
    assert(m.flatten_alt() == init.flatten_alt() + m.last());
    if j == m.len() - 1 {
        let x = init.flatten_alt().len() + k;
        assert(m.flatten_alt()[x] == m[j][k]);
    } else {
        lemma_in_flatten(init, j, k);
        let x = choose|x: int| 0 <= x < init.flatten_alt().len() && #[trigger] init.flatten_alt()[x] == init[j][k];
        assert(m.flatten_alt()[x] == m[j][k]);
    }
}

/// The map `h` holds the numbering `n`.
pub open spec fn holds_numbering(h: Map<u64, u64>, n: Map<u64, nat>) -> bool {
    &&& h.dom() == n.dom()
    &&& forall|v: u64| #[trigger] h.contains_key(v) ==> h[v] == n[v]
}

/// Gives `a`'s variable the next number if it has none yet.
fn record(map: &mut HashMap<u64, u64>, count: &mut u64, a: Atom, Ghost(seen): Ghost<Seq<Atom>>)
    requires
        holds_numbering(old(map)@, numbering(seen)),
        *old(count) == distinct_count(seen),
        seen.len() < u64::MAX,
    ensures
        holds_numbering(final(map)@, numbering(seen.push(a))),
        *final(count) == distinct_count(seen.push(a)),
{
    let ghost next = seen.push(a);
    assert(next.drop_last() =~= seen);
    proof {
        lemma_distinct_count_bound(seen);
    }
    if !map.contains_key(&a.var) {
        *count = *count + 1;
        map.insert(a.var, *count);
        assert(holds_numbering(map@, numbering(next)));
    }
}

proof fn lemma_distinct_count_bound(s: Seq<Atom>)
    ensures
        distinct_count(s) <= s.len(),
    decreases s.len(),
{
    if s.len() > 0 {
        lemma_distinct_count_bound(s.drop_last());
    }
}

fn digit_str(d: u64) -> (r: &'static str)
    requires
        d < 10,
    ensures
        r@ == seq![digit_char(d as nat)],
{
    proof {
        reveal_strlit("0");
        reveal_strlit("1");
        reveal_strlit("2");
        reveal_strlit("3");
        reveal_strlit("4");
        reveal_strlit("5");
        reveal_strlit("6");
        reveal_strlit("7");
        reveal_strlit("8");
        reveal_strlit("9");
    }
    if d == 0 {
        "0"
    } else if d == 1 {
        "1"
    } else if d == 2 {
        "2"
    } else if d == 3 {
        "3"
    } else if d == 4 {
        "4"
    } else if d == 5 {
        "5"
    } else if d == 6 {
        "6"
    } else if d == 7 {
        "7"
    } else if d == 8 {
        "8"
    } else {
        "9"
    }
}

/// Appends the decimal notation of `n`.
pub fn push_decimal(out: &mut String, n: u64)
    ensures
        final(out)@ == old(out)@ + decimal(n as nat),
    decreases n,
{
    if n >= 10 {
        push_decimal(out, n / 10);
    }
    out.append(digit_str(n % 10));
}

fn push_literal(out: &mut String, a: Atom, map: &HashMap<u64, u64>, Ghost(ren): Ghost<Map<u64, nat>>)
    requires
        holds_numbering(map@, ren),
        ren.contains_key(a.var),
    ensures
        final(out)@ == old(out)@ + literal_text(a, ren),
{
    proof {
        reveal_strlit("-");
    }
    let id: u64 = match map.get(&a.var) {
        Some(v) => *v,
        None => {
            proof {
                assert(false);
            }
            0
        },
    };
    if !a.positive {
        out.append("-");
    }
    push_decimal(out, id);
    assert(out@ =~= old(out)@ + literal_text(a, ren));
}


proof fn lemma_flatten_prefix(m: Seq<Seq<Atom>>, j: int)
    requires
        0 <= j < m.len(),
    ensures
        m.take(j).flatten_alt().len() + m[j].len() <= m.flatten_alt().len(),
    decreases m.len(),
{
    let init = m.drop_last();
    assert(m.flatten_alt() == init.flatten_alt() + m.last());
    if j == m.len() - 1 {
        assert(m.take(j) =~= init);
    } else {
        lemma_flatten_prefix(init, j);
        assert(init.take(j) =~= m.take(j));
    }
}

fn quantifier_str(q: Quantifier) -> (r: &'static str)
    ensures
        r@ == seq![quantifier_char(q)],
{
    proof {
        reveal_strlit("a");
        reveal_strlit("e");
    }
    match q {
        Quantifier::Forall => "a",
        Quantifier::Exists => "e",
    }
}

/// The QDIMACS text of a prefix and a clause matrix: the header, one line per run of
/// equal quantifier kinds, and one line per clause, with the variables renumbered
/// densely from 1 in order of first appearance.
pub fn qdimacs(quantifiers: &Vec<(Quantifier, Atom)>, matrix: &Vec<Vec<Atom>>) -> (r: String)
    requires
        atoms_of(quantifiers@, clauses_view(matrix@)).len() < u64::MAX,
    ensures
        r@ == qdimacs_text(quantifiers@, clauses_view(matrix@)),
{
    let ghost mv = clauses_view(matrix@);
    let ghost all = atoms_of(quantifiers@, mv);
    let ghost pa = quantifiers@.map_values(|e: (Quantifier, Atom)| e.1);
    let mut map: HashMap<u64, u64> = HashMap::new();
    let mut count: u64 = 0;
    let ghost mut seen: Seq<Atom> = seq![];
    assert(holds_numbering(map@, numbering(seen)));
    let mut i: usize = 0;
    while i < quantifiers.len()
        invariant
            i <= quantifiers@.len(),
            all == pa + mv.flatten_alt(),
            all.len() < u64::MAX,
            pa.len() == quantifiers@.len(),
            pa == quantifiers@.map_values(|e: (Quantifier, Atom)| e.1),
            seen == pa.take(i as int),
            holds_numbering(map@, numbering(seen)),
            count == distinct_count(seen),
        decreases quantifiers@.len() - i,
    {
        let a = quantifiers[i].1;
        record(&mut map, &mut count, a, Ghost(seen));
        proof {
            seen = seen.push(a);
            assert(seen =~= pa.take(i + 1));
        }
        i = i + 1;
    }
    let mut j: usize = 0;
    while j < matrix.len()
        invariant
            j <= matrix@.len(),
            mv == clauses_view(matrix@),
            all == pa + mv.flatten_alt(),
            all.len() < u64::MAX,
            pa.len() == quantifiers@.len(),
            seen == pa + mv.take(j as int).flatten_alt(),
            holds_numbering(map@, numbering(seen)),
            count == distinct_count(seen),
        decreases matrix@.len() - j,
    {
        let clause = &matrix[j];
        proof {
            lemma_flatten_prefix(mv, j as int);
        }
        let mut k: usize = 0;
        while k < clause.len()
            invariant
                j < matrix@.len(),
                k <= clause@.len(),
                clause@ == mv[j as int],
                mv.take(j as int).flatten_alt().len() + mv[j as int].len() <= mv.flatten_alt().len(),
                all == pa + mv.flatten_alt(),
                all.len() < u64::MAX,
                seen == pa + mv.take(j as int).flatten_alt() + clause@.take(k as int),
                holds_numbering(map@, numbering(seen)),
                count == distinct_count(seen),
            decreases clause@.len() - k,
        {
            let a = clause[k];
            record(&mut map, &mut count, a, Ghost(seen));
            proof {
                seen = seen.push(a);
                assert(seen =~= pa + mv.take(j as int).flatten_alt() + clause@.take(k + 1));
            }
            k = k + 1;
        }
        proof {
            assert(mv.take(j + 1).drop_last() =~= mv.take(j as int));
            assert(clause@.take(k as int) =~= clause@);
            assert(seen =~= pa + mv.take(j + 1).flatten_alt());
        }
        j = j + 1;
    }
    proof {
        assert(mv.take(mv.len() as int) =~= mv);
        assert(seen == all);
        lemma_numbering_range(all);
    }
    let ghost ren = numbering(all);
    proof {
        reveal_strlit("p cnf ");
        reveal_strlit(" ");
        reveal_strlit("\n");
        reveal_strlit(" 0\n");
        reveal_strlit("0\n");
    }
    let mut out = String::new();
    out.append("p cnf ");
    push_decimal(&mut out, count);
    out.append(" ");
    push_decimal(&mut out, matrix.len() as u64);
    out.append("\n");
    assert(out@ =~= header(distinct_count(all), mv.len()));
    let ghost head = out@;
    let mut i: usize = 0;
    while i < quantifiers.len()
        invariant
            i <= quantifiers@.len(),
            all == pa + mv.flatten_alt(),
            pa.len() == quantifiers@.len(),
            pa == quantifiers@.map_values(|e: (Quantifier, Atom)| e.1),
            holds_numbering(map@, ren),
            ren == numbering(all),
            forall|x: int| 0 <= x < all.len() ==> ren.contains_key(#[trigger] all[x].var),
            out@ == head + quantifier_pieces(quantifiers@, ren, i as nat),
        decreases quantifiers@.len() - i,
    {
        let (q, a) = quantifiers[i];
        let ghost before = out@;
        proof {
            reveal_strlit(" ");
            reveal_strlit(" 0\n");
        }
        if i == 0 || q != quantifiers[i - 1].0 {
            if i > 0 {
                out.append(" 0\n");
            }
            out.append(quantifier_str(q));
        }
        out.append(" ");
        assert(all[i as int] == a);
        push_literal(&mut out, a, &map, Ghost(ren));
        assert(out@ =~= before + quantifier_piece(quantifiers@, i as int, ren));
        i = i + 1;
    }
    if quantifiers.len() > 0 {
        out.append(" 0\n");
    }
    assert(out@ =~= head + quantifier_lines(quantifiers@, ren));
    let ghost mid = out@;
    let mut j: usize = 0;
    while j < matrix.len()
        invariant
            j <= matrix@.len(),
            mv == clauses_view(matrix@),
            mv.len() == matrix@.len(),
            all == pa + mv.flatten_alt(),
            pa.len() == quantifiers@.len(),
            holds_numbering(map@, ren),
            forall|x: int| 0 <= x < all.len() ==> ren.contains_key(#[trigger] all[x].var),
            out@ == mid + clause_lines(mv, ren, j as nat),
        decreases matrix@.len() - j,
    {
        let clause = &matrix[j];
        let ghost line_start = out@;
        let mut k: usize = 0;
        while k < clause.len()
            invariant
                j < matrix@.len(),
                mv.len() == matrix@.len(),
                k <= clause@.len(),
                clause@ == mv[j as int],
                all == pa + mv.flatten_alt(),
                holds_numbering(map@, ren),
                forall|x: int| 0 <= x < all.len() ==> ren.contains_key(#[trigger] all[x].var),
                out@ == line_start + clause_literals(clause@, ren, k as nat),
            decreases clause@.len() - k,
        {
            let a = clause[k];
            proof {
                lemma_in_flatten(mv, j as int, k as int);
                let x = choose|x: int|
                    0 <= x < mv.flatten_alt().len() && #[trigger] mv.flatten_alt()[x] == mv[j as int][k as int];
                assert(all[pa.len() + x] == a);
            }
            let ghost before = out@;
            proof {
                reveal_strlit(" ");
            }
            push_literal(&mut out, a, &map, Ghost(ren));
            out.append(" ");
            assert(out@ =~= line_start + clause_literals(clause@, ren, (k + 1) as nat));
            k = k + 1;
        }
        proof {
            reveal_strlit("0\n");
        }
        out.append("0\n");
        assert(out@ =~= mid + clause_lines(mv, ren, (j + 1) as nat));
        j = j + 1;
    }
    out
}


/// The quantifier letters `a` and `e` of a text, in order.
pub open spec fn letters(s: Seq<char>) -> Seq<char>
    decreases s.len(),
{
    if s.len() == 0 {
        seq![]
    } else if s.last() == 'a' || s.last() == 'e' {
        letters(s.drop_last()).push(s.last())
    } else {
        letters(s.drop_last())
    }
}

/// The number of line ends in a text.
pub open spec fn newlines(s: Seq<char>) -> nat
    decreases s.len(),
{
    if s.len() == 0 {
        0
    } else if s.last() == '\n' {
        newlines(s.drop_last()) + 1
    } else {
        newlines(s.drop_last())
    }
}

/// The letters of the maximal runs of equal kinds among the first `k` prefix entries.
pub open spec fn run_letters(p: Seq<(Quantifier, Atom)>, k: nat) -> Seq<char>
    decreases k,
{
    if k == 0 {
        seq![]
    } else if k == 1 || p[k - 1].0 != p[k - 2].0 {
        run_letters(p, (k - 1) as nat).push(quantifier_char(p[k - 1].0))
    } else {
        run_letters(p, (k - 1) as nat)
    }
}

proof fn lemma_text_add(a: Seq<char>, b: Seq<char>)
    ensures
        letters(a + b) == letters(a) + letters(b),
        newlines(a + b) == newlines(a) + newlines(b),
    decreases b.len(),
{
    if b.len() == 0 {
        assert(a + b =~= a);
        assert(letters(b) =~= seq![]);
    } else {
        lemma_text_add(a, b.drop_last());
        assert((a + b).drop_last() =~= a + b.drop_last());
        assert((a + b).last() == b.last());
        assert(letters(a) + letters(b.drop_last()).push(b.last()) =~= (letters(a) + letters(
            b.drop_last(),
        )).push(b.last()));
    }
}

proof fn lemma_plain_text(s: Seq<char>)
    requires
        forall|i: int| 0 <= i < s.len() ==> #[trigger] s[i] != 'a' && s[i] != 'e' && s[i] != '\n',
    ensures
        letters(s) == Seq::<char>::empty(),
        newlines(s) == 0,
    decreases s.len(),
{
    if s.len() > 0 {
        assert forall|i: int| 0 <= i < s.len() - 1 implies #[trigger] s.drop_last()[i] != 'a'
            && s.drop_last()[i] != 'e' && s.drop_last()[i] != '\n' by {
            assert(s.drop_last()[i] == s[i]);
        }
        lemma_plain_text(s.drop_last());
    }
}

proof fn lemma_decimal_plain(n: nat)
    ensures
        letters(decimal(n)) == Seq::<char>::empty(),
        newlines(decimal(n)) == 0,
    decreases n,
{
    if n < 10 {
        lemma_plain_text(decimal(n));
    } else {
        lemma_decimal_plain(n / 10);
        lemma_plain_text(seq![digit_char(n % 10)]);
        lemma_text_add(decimal(n / 10), seq![digit_char(n % 10)]);
    }
}

proof fn lemma_literal_plain(a: Atom, ren: Map<u64, nat>)
    ensures
        letters(literal_text(a, ren)) == Seq::<char>::empty(),
        newlines(literal_text(a, ren)) == 0,
{
    lemma_decimal_plain(ren[a.var]);
    lemma_plain_text(seq!['-']);
    lemma_text_add(seq!['-'], decimal(ren[a.var]));
}

proof fn lemma_clause_lines(m: Seq<Seq<Atom>>, ren: Map<u64, nat>, k: nat)
    requires
        k <= m.len(),
    ensures
        letters(clause_lines(m, ren, k)) == Seq::<char>::empty(),
        newlines(clause_lines(m, ren, k)) == k,
    decreases k,
{
    if k > 0 {
        lemma_clause_lines(m, ren, (k - 1) as nat);
        let c = m[k - 1];
        lemma_clause_literals(c, ren, c.len());
        lemma_text_add(clause_literals(c, ren, c.len()), seq!['0', '\n']);
        lemma_single_letter('0');
        lemma_single_letter('\n');
        lemma_text_add(seq!['0'], seq!['\n']);
        assert(seq!['0'] + seq!['\n'] =~= seq!['0', '\n']);
        lemma_text_add(clause_lines(m, ren, (k - 1) as nat), clause_line(c, ren));
    }
}

proof fn lemma_clause_literals(c: Seq<Atom>, ren: Map<u64, nat>, k: nat)
    requires
        k <= c.len(),
    ensures
        letters(clause_literals(c, ren, k)) == Seq::<char>::empty(),
        newlines(clause_literals(c, ren, k)) == 0,
    decreases k,
{
    if k > 0 {
        lemma_clause_literals(c, ren, (k - 1) as nat);
        lemma_literal_plain(c[k - 1], ren);
        lemma_plain_text(seq![' ']);
        lemma_text_add(clause_literals(c, ren, (k - 1) as nat), literal_text(c[k - 1], ren));
        lemma_text_add(
            clause_literals(c, ren, (k - 1) as nat) + literal_text(c[k - 1], ren),
            seq![' '],
        );
    }
}

proof fn lemma_single_letter(ch: char)
    ensures
        letters(seq![ch]) == (if ch == 'a' || ch == 'e' {
            seq![ch]
        } else {
            Seq::<char>::empty()
        }),
        newlines(seq![ch]) == (if ch == '\n' {
            1nat
        } else {
            0nat
        }),
{
    let s = seq![ch];
    assert(s.drop_last() =~= Seq::<char>::empty());
    assert(s.last() == ch);
    assert(letters(Seq::<char>::empty()) == Seq::<char>::empty());
    assert(newlines(Seq::<char>::empty()) == 0);
    assert(Seq::<char>::empty().push(ch) =~= seq![ch]);
}

proof fn lemma_block_end()
    ensures
        letters(block_end()) == Seq::<char>::empty(),
        newlines(block_end()) == 1,
{
    lemma_single_letter(' ');
    lemma_single_letter('0');
    lemma_single_letter('\n');
    lemma_text_add(seq![' '], seq!['0']);
    lemma_text_add(seq![' '] + seq!['0'], seq!['\n']);
    assert(block_end() =~= seq![' '] + seq!['0'] + seq!['\n']);
}

proof fn lemma_quantifier_pieces(p: Seq<(Quantifier, Atom)>, ren: Map<u64, nat>, k: nat)
    requires
        k <= p.len(),
    ensures
        letters(quantifier_pieces(p, ren, k)) == run_letters(p, k),
        newlines(quantifier_pieces(p, ren, k)) + 1 == run_letters(p, k).len() || (k == 0
            && newlines(quantifier_pieces(p, ren, k)) == 0),
    decreases k,
{
    if k > 0 {
        let i = k - 1;
        lemma_quantifier_pieces(p, ren, (k - 1) as nat);
        let ch = quantifier_char(p[i].0);
        lemma_single_letter(ch);
        lemma_literal_plain(p[i].1, ren);
        lemma_plain_text(seq![' ']);
        lemma_text_add(seq![' '], literal_text(p[i].1, ren));
        lemma_block_end();
        lemma_text_add(block_end(), seq![ch]);
        let starts = i == 0 || p[i].0 != p[i - 1].0;
        let head = if starts {
            if i > 0 {
                block_end() + seq![ch]
            } else {
                seq![ch]
            }
        } else {
            seq![]
        };
        assert(letters(Seq::<char>::empty()) =~= seq![]);
        lemma_text_add(head, seq![' '] + literal_text(p[i].1, ren));
        assert(quantifier_piece(p, i, ren) =~= head + (seq![' '] + literal_text(p[i].1, ren)));
        lemma_text_add(quantifier_pieces(p, ren, (k - 1) as nat), quantifier_piece(p, i, ren));
        assert(letters(seq![ch]) =~= seq![ch]);
        assert(run_letters(p, (k - 1) as nat) + seq![ch] =~= run_letters(p, (k - 1) as nat).push(ch));
        assert(run_letters(p, (k - 1) as nat) + seq![] =~= run_letters(p, (k - 1) as nat));
        if i == 0 {
            assert(run_letters(p, 0) =~= seq![]);
        }
    }
}

/// Some variable has the number `k`.
pub open spec fn is_numbered(ren: Map<u64, nat>, k: nat) -> bool {
    exists|v: u64| ren.contains_key(v) && #[trigger] ren[v] == k
}

proof fn lemma_numbering_bijective(s: Seq<Atom>)
    ensures
        forall|k: nat| 1 <= k <= distinct_count(s) ==> #[trigger] is_numbered(numbering(s), k),
        forall|v: u64, w: u64|
            numbering(s).contains_key(v) && numbering(s).contains_key(w) && v != w ==> #[trigger] numbering(s)[v]
                != #[trigger] numbering(s)[w],
    decreases s.len(),
{
    lemma_numbering_range(s);
    if s.len() > 0 {
        let init = s.drop_last();
        lemma_numbering_bijective(init);
        lemma_numbering_range(init);
        let n = numbering(s);
        assert forall|k: nat| 1 <= k <= distinct_count(s) implies #[trigger] is_numbered(n, k) by {
            if k <= distinct_count(init) {
                assert(is_numbered(numbering(init), k));
                let v = choose|v: u64| numbering(init).contains_key(v) && #[trigger] numbering(init)[v] == k;
                assert(n.contains_key(v) && n[v] == k);
            } else {
                assert(n.contains_key(s.last().var) && n[s.last().var] == k);
            }
        }
    }
}

/// The QDIMACS text is well formed: the clause lines are as many as the header
/// declares; the new ids are exactly 1..N, one for each variable, with no gap; the
/// quantifier lines are one per maximal run of equal kinds, each with its run's letter,
/// in the order of the prefix.
pub proof fn lemma_qdimacs_well_formed(p: Seq<(Quantifier, Atom)>, m: Seq<Seq<Atom>>)
    ensures
        ({
            let all = atoms_of(p, m);
            let ren = numbering(all);
            let n = distinct_count(all);
            &&& qdimacs_text(p, m) == header(n, m.len()) + quantifier_lines(p, ren) + clause_lines(
                m,
                ren,
                m.len(),
            )
            &&& newlines(clause_lines(m, ren, m.len())) == m.len()
            &&& forall|i: int|
                0 <= i < all.len() ==> ren.contains_key(#[trigger] all[i].var) && 1 <= ren[all[i].var]
                    <= n
            &&& forall|k: nat| 1 <= k <= n ==> #[trigger] is_numbered(ren, k)
            &&& forall|v: u64, w: u64|
                ren.contains_key(v) && ren.contains_key(w) && v != w ==> #[trigger] ren[v] != #[trigger] ren[w]
            &&& letters(quantifier_lines(p, ren)) == run_letters(p, p.len())
            &&& newlines(quantifier_lines(p, ren)) == run_letters(p, p.len()).len()
        }),
{
    let all = atoms_of(p, m);
    let ren = numbering(all);
    lemma_numbering_range(all);
    lemma_numbering_bijective(all);
    lemma_clause_lines(m, ren, m.len());
    lemma_quantifier_pieces(p, ren, p.len());
    if p.len() > 0 {
        lemma_block_end();
        lemma_text_add(quantifier_pieces(p, ren, p.len()), block_end());
        assert(run_letters(p, p.len()) + seq![] =~= run_letters(p, p.len()));
    } else {
        assert(run_letters(p, 0) =~= seq![]);
    }
}


/// An atom for reading: its variable, after `¬` when negative.
pub open spec fn atom_text(a: Atom) -> Seq<char> {
    if a.positive {
        decimal(a.var as nat)
    } else {
        seq!['\u{ac}'] + decimal(a.var as nat)
    }
}

/// The symbol of a quantifier: `∀` or `∃`.
pub open spec fn quantifier_symbol(q: Quantifier) -> char {
    match q {
        Quantifier::Forall => '\u{2200}',
        Quantifier::Exists => '\u{2203}',
    }
}

/// A formula for reading: `∃a(f)`, `∀a(f)`, `¬f`, `f∧g`, `(f∨g)`.
pub open spec fn formula_text(f: Formula) -> Seq<char>
    decreases f,
{
    match f {
        Formula::Atom(a) => atom_text(a),
        Formula::Not(g) => seq!['\u{ac}'] + formula_text(*g),
        Formula::Exists(a, g) => seq!['\u{2203}'] + atom_text(a) + seq!['('] + formula_text(*g) + seq![')'],
        Formula::Forall(a, g) => seq!['\u{2200}'] + atom_text(a) + seq!['('] + formula_text(*g) + seq![')'],
        Formula::And(g, h) => formula_text(*g) + seq!['\u{2227}'] + formula_text(*h),
        Formula::Or(g, h) => seq!['('] + formula_text(*g) + seq!['\u{2228}'] + formula_text(*h) + seq![')'],
    }
}

/// The first `k` entries of a prefix, each its symbol and its atom.
pub open spec fn prefix_text(p: Seq<(Quantifier, Atom)>, k: nat) -> Seq<char>
    decreases k,
{
    if k == 0 {
        seq![]
    } else {
        prefix_text(p, (k - 1) as nat) + seq![quantifier_symbol(p[k - 1].0)] + atom_text(p[k - 1].1)
    }
}

/// The first `k` literals of a clause, joined by `∨`.
pub open spec fn clause_text(c: Seq<Atom>, k: nat) -> Seq<char>
    decreases k,
{
    if k == 0 {
        seq![]
    } else if k == 1 {
        atom_text(c[0])
    } else {
        clause_text(c, (k - 1) as nat) + seq!['\u{2228}'] + atom_text(c[k - 1])
    }
}

/// The first `k` clauses, joined by `∧`.
pub open spec fn matrix_text(m: Seq<Seq<Atom>>, k: nat) -> Seq<char>
    decreases k,
{
    if k == 0 {
        seq![]
    } else if k == 1 {
        clause_text(m[0], m[0].len())
    } else {
        matrix_text(m, (k - 1) as nat) + seq!['\u{2227}'] + clause_text(m[k - 1], m[k - 1].len())
    }
}

fn push_atom(out: &mut String, a: Atom)
    ensures
        final(out)@ == old(out)@ + atom_text(a),
{
    proof {
        reveal_strlit("\u{ac}");
    }
    if !a.positive {
        out.append("\u{ac}");
    }
    push_decimal(out, a.var);
    assert(out@ =~= old(out)@ + atom_text(a));
}

impl Formula {
    /// Appends the formula for reading.
    pub fn push_text(&self, out: &mut String)
        ensures
            final(out)@ == old(out)@ + formula_text(*self),
        decreases self,
    {
        proof {
            reveal_strlit("\u{ac}");
            reveal_strlit("\u{2203}");
            reveal_strlit("\u{2200}");
            reveal_strlit("(");
            reveal_strlit(")");
            reveal_strlit("\u{2227}");
            reveal_strlit("\u{2228}");
        }
        let ghost start = out@;
        match self {
            Formula::Atom(a) => push_atom(out, *a),
            Formula::Not(g) => {
                out.append("\u{ac}");
                g.push_text(out);
            },
            Formula::Exists(a, g) => {
                out.append("\u{2203}");
                push_atom(out, *a);
                out.append("(");
                g.push_text(out);
                out.append(")");
            },
            Formula::Forall(a, g) => {
                out.append("\u{2200}");
                push_atom(out, *a);
                out.append("(");
                g.push_text(out);
                out.append(")");
            },
            Formula::And(g, h) => {
                g.push_text(out);
                out.append("\u{2227}");
                h.push_text(out);
            },
            Formula::Or(g, h) => {
                out.append("(");
                g.push_text(out);
                out.append("\u{2228}");
                h.push_text(out);
                out.append(")");
            },
        }
        assert(out@ =~= start + formula_text(*self));
    }

    /// The formula for reading.
    pub fn to_text(&self) -> (r: String)
        ensures
            r@ == formula_text(*self),
    {
        let mut out = String::new();
        self.push_text(&mut out);
        assert(out@ =~= formula_text(*self));
        out
    }
}

/// A prenex CNF for reading: each quantifier and its atom, then the clauses joined by
/// `∧`, each clause's literals joined by `∨`.
pub fn display_tseitin(quantifiers: &Vec<(Quantifier, Atom)>, matrix: &Vec<Vec<Atom>>) -> (r: String)
    ensures
        r@ == prefix_text(quantifiers@, quantifiers@.len()) + matrix_text(
            clauses_view(matrix@),
            matrix@.len(),
        ),
{
    proof {
        reveal_strlit("\u{2203}");
        reveal_strlit("\u{2200}");
    }
    let mut acc = String::new();
    let mut i: usize = 0;
    while i < quantifiers.len()
        invariant
            i <= quantifiers@.len(),
            acc@ == prefix_text(quantifiers@, i as nat),
        decreases quantifiers@.len() - i,
    {
        let (q, a) = quantifiers[i];
        proof {
            reveal_strlit("\u{2203}");
            reveal_strlit("\u{2200}");
        }
        match q {
            Quantifier::Forall => acc.append("\u{2200}"),
            Quantifier::Exists => acc.append("\u{2203}"),
        }
        push_atom(&mut acc, a);
        assert(acc@ =~= prefix_text(quantifiers@, (i + 1) as nat));
        i = i + 1;
    }
    let ghost head = acc@;
    let ghost mv = clauses_view(matrix@);
    let mut j: usize = 0;
    while j < matrix.len()
        invariant
            j <= matrix@.len(),
            mv == clauses_view(matrix@),
            mv.len() == matrix@.len(),
            acc@ == head + matrix_text(mv, j as nat),
        decreases matrix@.len() - j,
    {
        proof {
            reveal_strlit("\u{2227}");
            reveal_strlit("\u{2228}");
        }
        if j > 0 {
            acc.append("\u{2227}");
        }
        let clause = &matrix[j];
        let ghost before = acc@;
        let mut k: usize = 0;
        while k < clause.len()
            invariant
                k <= clause@.len(),
                acc@ == before + clause_text(clause@, k as nat),
            decreases clause@.len() - k,
        {
            proof {
                reveal_strlit("\u{2228}");
            }
            if k > 0 {
                acc.append("\u{2228}");
            }
            push_atom(&mut acc, clause[k]);
            assert(acc@ =~= before + clause_text(clause@, (k + 1) as nat));
            k = k + 1;
        }
        assert(mv[j as int] == clause@);
        assert(acc@ =~= head + matrix_text(mv, (j + 1) as nat));
        j = j + 1;
    }
    acc
}

} // verus!
