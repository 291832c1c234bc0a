//! The compact renderer: an expression tree as one line of text.
use vstd::prelude::*;
use crate::text::{decimal_of, push_decimal};

verus! {

broadcast use vstd::std_specs::vec::group_vec_axioms;

/// A parsed expression. A float holds the text of its shortest round-trip
/// form; a function is never looked into.
#[derive(Debug)]
pub enum Expr {
    One,
    Bool(bool),
    Int(i64),
    Float(String),
    Symbol(String),
    String(String),
    List(Vec<Expr>),
    Func,
}

/// The one-line rendering of `e`.
pub open spec fn compact_of(e: Expr) -> Seq<char>
    decreases e, 0nat,
{
    match e {
        Expr::One => seq!['(', ')'],
        Expr::Bool(b) => if b {
            seq!['t', 'r', 'u', 'e']
        } else {
            seq!['f', 'a', 'l', 's', 'e']
        },
        Expr::Int(n) => decimal_of(n as int),
        Expr::Float(s) => s@,
        Expr::Symbol(s) => s@,
        Expr::String(s) => s@,
        Expr::List(items) => seq!['('] + joined(items, items@.len() as int) + seq![')'],
        Expr::Func => seq!['#', '<', 'f', 'u', 'n', 'c', '>'],
    }
}

/// The renderings of the first `k` of `items`, separated by single spaces.
pub open spec fn joined(items: Vec<Expr>, k: int) -> Seq<char>
    decreases items, k,
{
    if k <= 0 || k > items@.len() {
        Seq::empty()
    } else if k == 1 {
        compact_of(items@[0])
    } else {
        joined(items, k - 1) + seq![' '] + compact_of(items@[k - 1])
    }
}

/// Renders `expr` on one line: `()` for unit, `true`/`false`, decimal
/// numerals, symbols and strings verbatim, lists as their space-separated
/// elements in parentheses, and `#<func>` for a function.
pub fn format_compact(expr: &Expr) -> (r: String)
    ensures
        r@ == compact_of(*expr),
    decreases expr,
{
    proof {
        reveal_strlit("()");
        reveal_strlit("true");
        reveal_strlit("false");
        reveal_strlit("#<func>");
        reveal_strlit("(");
        reveal_strlit(")");
        reveal_strlit(" ");
    }
    match expr {
        Expr::One => String::from_str("()"),
        Expr::Bool(b) => if *b {
            String::from_str("true")
        } else {
            String::from_str("false")
        },
        Expr::Int(n) => {
            let mut out = String::new();
            push_decimal(&mut out, *n);
            out
        },
        Expr::Float(s) => s.clone(),
        Expr::Symbol(s) => s.clone(),
        Expr::String(s) => s.clone(),
        Expr::List(terms) => {
            let mut out = String::from_str("(");
            let mut i: usize = 0;
            while i < terms.len()
                invariant
                    *expr == Expr::List(*terms),
                    i <= terms@.len(),
                    out@ == seq!['('] + joined(*terms, i as int),
                decreases terms@.len() - i,
            {
                let ghost prev = out@;
                proof {
                    reveal_strlit(" ");
                }
                if i > 0 {
                    out.append(" ");
                }
                proof {
                    assert(decreases_to!(*expr => expr->List_0));
                    assert(decreases_to!(*terms => terms@));
                    assert(decreases_to!(terms@ => terms@[i as int]));
                    assert(decreases_to!(*expr => terms@[i as int]));
                }
                let term = format_compact(&terms[i]);
                assert(term@ == compact_of(terms@[i as int]));
                out.append(term.as_str());
                proof {
                    let k = i + 1;
                    if i == 0 {
                        assert(out@ =~= prev + term@);
                        assert(joined(*terms, k as int) == compact_of(terms@[0]));
                    } else {
                        assert(out@ =~= prev + seq![' '] + term@);
                        assert(joined(*terms, k as int) == joined(*terms, i as int) + seq![' ']
                            + compact_of(terms@[i as int]));
                    }
                }
                i = i + 1;
                assert(out@ =~= seq!['('] + joined(*terms, i as int));
            }
            out.append(")");
            out
        },
        Expr::Func => String::from_str("#<func>"),
    }
}

/// How many times `c` occurs in `s`.
pub open spec fn occurrences(s: Seq<char>, c: char) -> nat
    decreases s.len(),
{
    if s.len() == 0 {
        0
    } else {
        occurrences(s.drop_last(), c) + if s.last() == c {
            1nat
        } else {
            0nat
        }
    }
}

proof fn lemma_occurrences_concat(a: Seq<char>, b: Seq<char>, c: char)
    ensures
        occurrences(a + b, c) == occurrences(a, c) + occurrences(b, c),
    decreases b.len(),
{
    if b.len() == 0 {
        assert(a + b =~= a);
    } else {
        assert((a + b).drop_last() =~= a + b.drop_last());
        lemma_occurrences_concat(a, b.drop_last(), c);
    }
}

proof fn lemma_unit_run(items: Vec<Expr>, k: int)
    requires
        1 <= k <= items@.len(),
        forall|i: int| 0 <= i < items@.len() ==> #[trigger] items@[i] is One,
    ensures
        joined(items, k).len() == 3 * k - 1,
        occurrences(joined(items, k), ' ') == k - 1,
        occurrences(joined(items, k), '(') == k,
        occurrences(joined(items, k), ')') == k,
    decreases k,
{
    let unit = seq!['(', ')'];
    assert(compact_of(items@[k - 1]) == unit);
    assert(occurrences(unit, '(') == 1) by {
        reveal_with_fuel(occurrences, 3);
        assert(unit.drop_last() =~= seq!['(']);
        assert(unit.drop_last().drop_last() =~= Seq::<char>::empty());
    }
    assert(occurrences(unit, ')') == 1) by {
        reveal_with_fuel(occurrences, 3);
        assert(unit.drop_last() =~= seq!['(']);
        assert(unit.drop_last().drop_last() =~= Seq::<char>::empty());
    }
    assert(occurrences(unit, ' ') == 0) by {
        reveal_with_fuel(occurrences, 3);
        assert(unit.drop_last() =~= seq!['(']);
        assert(unit.drop_last().drop_last() =~= Seq::<char>::empty());
    }
    if k > 1 {
        lemma_unit_run(items, k - 1);
        let head = joined(items, k - 1) + seq![' '];
        assert(occurrences(seq![' '], ' ') == 1 && occurrences(seq![' '], '(') == 0
            && occurrences(seq![' '], ')') == 0) by {
            reveal_with_fuel(occurrences, 2);
            assert(seq![' '].drop_last() =~= Seq::<char>::empty());
        }
        assert(joined(items, k) == head + unit);
        lemma_occurrences_concat(joined(items, k - 1), seq![' '], ' ');
        lemma_occurrences_concat(joined(items, k - 1), seq![' '], '(');
        lemma_occurrences_concat(joined(items, k - 1), seq![' '], ')');
        lemma_occurrences_concat(head, unit, ' ');
        lemma_occurrences_concat(head, unit, '(');
        lemma_occurrences_concat(head, unit, ')');
    }
}

/// A list of `n` units renders as `n` copies of `()` separated by `n - 1`
/// single spaces, inside one pair of parentheses: the empty list as `()`.
pub proof fn list_of_units_renders_separated(items: Vec<Expr>)
    requires
        forall|i: int| 0 <= i < items@.len() ==> #[trigger] items@[i] is One,
    ensures
        items@.len() == 0 ==> compact_of(Expr::List(items)) == seq!['(', ')'],
        items@.len() > 0 ==> {
            let n = items@.len() as int;
            let inner = joined(items, n);
            &&& compact_of(Expr::List(items)) == seq!['('] + inner + seq![')']
            &&& inner.len() == 3 * n - 1
            &&& occurrences(inner, ' ') == n - 1
            &&& occurrences(inner, '(') == n
            &&& occurrences(inner, ')') == n
        },
{
    if items@.len() == 0 {
        assert(seq!['('] + Seq::<char>::empty() + seq![')'] =~= seq!['(', ')']);
    } else {
        lemma_unit_run(items, items@.len() as int);
    }
}

} // verus!
