//! The textual form in which the output of expression statements is printed,
//! for values over the integer domain.
use vstd::prelude::*;
use vstd::string::StringExecFns;
use crate::value::{lemma_views_of, views_of, Val, Value};

verus! {

broadcast use vstd::std_specs::vec::axiom_vec_decreases_to_view, vstd::std_specs::vec::axiom_vec_index_decreases, vstd::seq::axiom_seq_index_decreases, vstd::seq::axiom_seq_subrange_decreases;

/// The character of a decimal digit.
pub open spec fn digit_char(d: nat) -> char {
    if d == 0 { '0' } else if d == 1 { '1' } else if d == 2 { '2' } else if d == 3 { '3' } else if d == 4 {
        '4'
    } else if d == 5 { '5' } else if d == 6 { '6' } else if d == 7 { '7' } else if d == 8 { '8' } else {
        '9'
    }
}

/// The decimal digits of `n`, most significant first, without leading zeros.
pub open spec fn decimal(n: nat) -> Seq<char>
    decreases n,
{
    if n < 10 {
        seq![digit_char(n)]
    } else {
        decimal(n / 10).push(digit_char(n % 10))
    }
}

fn digit_text(d: u64) -> (r: &'static str)
    requires
        d < 10,
    ensures
        r@ == seq![digit_char(d as nat)],
{
    proof {
        reveal_strlit("0");
        reveal_strlit("1");
        reveal_strlit("2");
        reveal_strlit("3");
        reveal_strlit("4");
        reveal_strlit("5");
        reveal_strlit("6");
        reveal_strlit("7");
        reveal_strlit("8");
        reveal_strlit("9");
    }
    if d == 0 { "0" } else if d == 1 { "1" } else if d == 2 { "2" } else if d == 3 { "3" } else if d == 4 {
        "4"
    } else if d == 5 { "5" } else if d == 6 { "6" } else if d == 7 { "7" } else if d == 8 { "8" } else {
        "9"
    }
}

/// The decimal numeral of an unsigned `n`.
pub fn decimal_text(n: u64) -> (r: String)
    ensures
        r@ == decimal(n as nat),
    decreases n,
{
    if n < 10 {
        String::from_str(digit_text(n))
    } else {
        let head = decimal_text(n / 10);
        let r = head.concat(digit_text(n % 10));
        proof {
            assert(decimal(n as nat) == decimal((n / 10) as nat).push(digit_char((n % 10) as nat)));
            assert(r@ =~= decimal(n as nat));
        }
        r
    }
}

/// An integer in decimal, with a leading `-` when it is negative.
pub open spec fn integer_text(n: i64) -> Seq<char> {
    if n < 0 {
        seq!['-'] + decimal((-n) as nat)
    } else {
        decimal(n as nat)
    }
}

/// The decimal numeral of `n`.
pub fn integer_numeral(n: i64) -> (r: String)
    ensures
        r@ == integer_text(n),
{
    if n < 0 {
        let magnitude: u64 = (-(n as i128)) as u64;
        let digits = decimal_text(magnitude);
        proof {
            reveal_strlit("-");
        }
        let r = String::from_str("-").concat(digits.as_str());
        proof {
            assert(r@ =~= seq!['-'] + decimal((-n) as nat));
        }
        r
    } else {
        decimal_text(n as u64)
    }
}

/// An integer in decimal, text as it is, a boolean as `true` or
/// `false`, and a tuple as its elements' forms, separated by `, `, inside
/// parentheses.
pub open spec fn text_of(v: Val<i64>) -> Seq<char>
    decreases v,
{
    match v {
        Val::Number(n) => integer_text(n),
        Val::Text(s) => s,
        Val::Boolean(b) => if b {
            seq!['t', 'r', 'u', 'e']
        } else {
            seq!['f', 'a', 'l', 's', 'e']
        },
        Val::Tuple(items) => seq!['('] + joined(items) + seq![')'],
    }
}

/// The forms of `items`, separated by `, `.
pub open spec fn joined(items: Seq<Val<i64>>) -> Seq<char>
    decreases items,
{
    if items.len() == 0 {
        Seq::empty()
    } else if items.len() == 1 {
        text_of(items[0])
    } else {
        joined(items.drop_last()) + seq![',', ' '] + text_of(items.last())
    }
}

/// The textual form of `value`.
pub fn render(value: &Value<i64>) -> (r: String)
    ensures
        r@ == text_of(value@),
    decreases value,
{
    match value {
        Value::Number(n) => integer_numeral(*n),
        Value::String(s) => s.clone(),
        Value::Boolean(b) => {
            proof {
                reveal_strlit("true");
                reveal_strlit("false");
            }
            if *b {
                String::from_str("true")
            } else {
                String::from_str("false")
            }
        },
        Value::Tuple(items) => {
            proof {
                reveal_strlit("(");
                reveal_strlit(", ");
                reveal_strlit(")");
                lemma_views_of(items@);
            }
            let mut out = String::from_str("(");
            let mut i: usize = 0;
            while i < items.len()
                invariant
                    decreases_to!(*value => *items),
                    *value == Value::<i64>::Tuple(*items),
                    i <= items.len(),
                    out@ == seq!['('] + joined(views_of(items@.take(i as int))),
                decreases items.len() - i,
            {
                proof {
                    assert(decreases_to!(*value => items[i as int]));
                    reveal_strlit(", ");
                    assert(items@.take(i as int + 1).drop_last() == items@.take(i as int));
                    lemma_views_of(items@.take(i as int));
                }
                let ghost before = out@;
                if i > 0 {
                    out = out.concat(", ");
                }
                let part = render(&items[i]);
                out = out.concat(part.as_str());
                proof {
                    let prefix = views_of(items@.take(i as int));
                    let next = views_of(items@.take(i as int + 1));
                    assert(next == prefix.push(items@[i as int]@));
                    assert(next.drop_last() == prefix);
                    assert(next.last() == items@[i as int]@);
                    if i == 0 {
                        assert(next.len() == 1);
                        assert(out@ =~= seq!['('] + joined(next));
                    } else {
                        assert(next.len() >= 2);
                        assert(joined(next) == joined(prefix) + seq![',', ' '] + text_of(items@[i as int]@));
                        assert(out@ =~= before + seq![',', ' '] + part@);
                        assert(out@ =~= seq!['('] + joined(next));
                    }
                }
                i = i + 1;
            }
            proof {
                assert(items@.take(items.len() as int) == items@);
            }
            proof {
                reveal_strlit(")");
            }
            out.concat(")")
        },
    }
}

} // verus!
