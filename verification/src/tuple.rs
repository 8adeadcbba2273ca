//! Tuples of one repeated value.

use vstd::prelude::*;
use vstd::string::StringExecFns;

verus! {

/// `count` copies of `value`.
pub fn dynamic_tuple<T: Copy>(value: T, count: usize) -> (tuple: Vec<T>)
    ensures
        tuple@ == Seq::new(count as nat, |i: int| value),
{
    let mut tuple: Vec<T> = Vec::new();
    let mut i: usize = 0;
    while i < count
        invariant
            i <= count,
            tuple@ == Seq::new(i as nat, |j: int| value),
        decreases count - i,
    {
        tuple.push(value);
        i += 1;
        assert(tuple@ =~= Seq::new(i as nat, |j: int| value));
    }
    tuple
}

/// `count` copies of `element` with `, ` between two.
pub open spec fn repeated(element: Seq<char>, count: nat) -> Seq<char>
    decreases count,
{
    if count == 0 {
        Seq::empty()
    } else if count == 1 {
        element
    } else {
        repeated(element, (count - 1) as nat) + seq![',', ' '] + element
    }
}

/// How a tuple of `count` copies of `element` is written: the copies with
/// `, ` between two, in round brackets.
pub open spec fn tuple_chars(element: Seq<char>, count: nat) -> Seq<char> {
    seq!['('] + repeated(element, count) + seq![')']
}

/// Writes the tuple that holds `count` copies of `element`: `(e, e, e)`.
pub fn tuple_text(element: &str, count: usize) -> (text: String)
    ensures
        text@ == tuple_chars(element@, count as nat),
{
    proof {
        reveal_strlit("(");
        reveal_strlit(", ");
        reveal_strlit(")");
    }
    let mut text = String::from_str("(");
    let mut i: usize = 0;
    while i < count
        invariant
            i <= count,
            "("@ == seq!['('],
            ", "@ == seq![',', ' '],
            text@ == seq!['('] + repeated(element@, i as nat),
        decreases count - i,
    {
        if i > 0 {
            text.append(", ");
        }
        text.append(element);
        i += 1;
        assert(text@ =~= seq!['('] + repeated(element@, i as nat));
    }
    text.append(")");
    assert(text@ =~= tuple_chars(element@, count as nat));
    text
}

} // verus!
