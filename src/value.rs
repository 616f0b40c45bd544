//! Runtime values and their mathematical model.
use vstd::prelude::*;
use vstd::string::StrSliceExecFns;
use crate::number::Number;

verus! {

broadcast use vstd::std_specs::vec::axiom_vec_decreases_to_view, vstd::std_specs::vec::axiom_vec_index_decreases, vstd::seq::axiom_seq_index_decreases, vstd::seq::axiom_seq_subrange_decreases;

/// A runtime value. Values have no identity: they are copied, never shared.
#[derive(Debug)]
#[verifier::reject_recursive_types(N)]
pub enum Value<N> {
    Number(N),
    String(String),
    Boolean(bool),
    Tuple(Vec<Value<N>>),
}

/// The mathematical model of a value: text as a sequence of characters and a
/// tuple as a sequence of models.
#[verifier::reject_recursive_types(N)]
pub enum Val<N> {
    Number(N),
    Text(Seq<char>),
    Boolean(bool),
    Tuple(Seq<Val<N>>),
}

pub open spec fn view_of<N>(v: Value<N>) -> Val<N>
    decreases v,
{
    match v {
        Value::Number(n) => Val::Number(n),
        Value::String(s) => Val::Text(s@),
        Value::Boolean(b) => Val::Boolean(b),
        Value::Tuple(items) => Val::Tuple(views_of(items@)),
    }
}

pub open spec fn views_of<N>(items: Seq<Value<N>>) -> Seq<Val<N>>
    decreases items,
{
    if items.len() == 0 {
        Seq::empty()
    } else {
        views_of(items.drop_last()).push(view_of(items.last()))
    }
}

impl<N> View for Value<N> {
    type V = Val<N>;

    open spec fn view(&self) -> Val<N> {
        view_of(*self)
    }
}

pub proof fn lemma_views_of<N>(items: Seq<Value<N>>)
    ensures
        views_of(items).len() == items.len(),
        forall|i: int| 0 <= i < items.len() ==> #[trigger] views_of(items)[i] == view_of(items[i]),
    decreases items.len(),
{
    if items.len() > 0 {
        lemma_views_of(items.drop_last());
    }
}

/// Lexicographic order on text, from position `i` on: a proper prefix comes
/// before the longer text, and otherwise the first differing character decides.
pub open spec fn text_less_from(a: Seq<char>, b: Seq<char>, i: int) -> bool
    decreases a.len() - i,
{
    if i >= a.len() {
        i < b.len()
    } else if i >= b.len() {
        false
    } else if a[i] != b[i] {
        (a[i] as u32) < (b[i] as u32)
    } else {
        text_less_from(a, b, i + 1)
    }
}

/// Lexicographic order on text, by character code (the order of `str`).
pub open spec fn text_less(a: Seq<char>, b: Seq<char>) -> bool {
    text_less_from(a, b, 0)
}

/// Whether `a` comes strictly before `b` in lexicographic order.
pub fn text_less_than(a: &String, b: &String) -> (r: bool)
    ensures
        r == text_less(a@, b@),
{
    let sa = a.as_str();
    let sb = b.as_str();
    let la = sa.unicode_len();
    let lb = sb.unicode_len();
    let mut i: usize = 0;
    while i < la && i < lb
        invariant
            la == a@.len(),
            lb == b@.len(),
            sa@ == a@,
            sb@ == b@,
            i <= la,
            i <= lb,
            text_less_from(a@, b@, 0) == text_less_from(a@, b@, i as int),
        decreases la - i,
    {
        let ca = sa.get_char(i);
        let cb = sb.get_char(i);
        if ca != cb {
            return (ca as u32) < (cb as u32);
        }
        i = i + 1;
    }
    i < lb
}

impl<N: Copy> Value<N> {
    /// A copy of the value, element by element.
    pub fn duplicate(&self) -> (r: Value<N>)
        ensures
            r@ == self@,
        decreases self,
    {
        match self {
            Value::Number(n) => Value::Number(*n),
            Value::String(s) => Value::String(s.clone()),
            Value::Boolean(b) => Value::Boolean(*b),
            Value::Tuple(items) => {
                proof {
                    assert(decreases_to!(*self => *items));
                }
                let mut out: Vec<Value<N>> = Vec::new();
                let mut i: usize = 0;
                while i < items.len()
                    invariant
                        decreases_to!(*self => *items),
                        i <= items.len(),
                        views_of(out@) == views_of(items@.take(i as int)),
                    decreases items.len() - i,
                {
                    proof {
                        assert(decreases_to!(*items => items[i as int]));
                        assert(decreases_to!(*self => items[i as int]));
                    }
                    let item = items[i].duplicate();
                    let ghost before = out@;
                    proof {
                        assert(items@.take(i as int + 1).drop_last() == items@.take(i as int));
                    }
                    out.push(item);
                    proof {
                        assert(out@.drop_last() == before);
                    }
                    i = i + 1;
                }
                proof {
                    assert(items@.take(items.len() as int) == items@);
                }
                Value::Tuple(out)
            },
        }
    }
}

} // verus!
