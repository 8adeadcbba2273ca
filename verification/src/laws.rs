//! What unpacking guarantees, stated over the models and proved from their
//! definitions.

use crate::error::UnpackError;
use crate::pattern::{
    compiled, has_two_rests, marks_rest, role_at, PatternView, Role, SlotSpecView,
};
use crate::unpack::{
    access_at, assignment_at, length_error, unpacked, BindingView, BoundView,
};
use vstd::prelude::*;

verus! {

/// The elements that one bound value holds, in order.
pub open spec fn elements_of<T>(value: BoundView<T>) -> Seq<T> {
    match value {
        BoundView::Element(x) => seq![x],
        BoundView::Rest(xs) => xs,
    }
}

/// The elements of all bindings, concatenated in slot order.
pub open spec fn flattened<T>(bindings: Seq<BindingView<T>>) -> Seq<T>
    decreases bindings.len(),
{
    if bindings.len() == 0 {
        Seq::empty()
    } else {
        flattened(bindings.drop_last()) + elements_of(bindings.last().value)
    }
}

/// A slot list without two rest markers compiles to a well-formed pattern of
/// the same arity, whose rest index is the marked position: exactly the
/// marked slot is `Rest`, every slot before it is `Head`, every slot after
/// it is `Tail`, and without a marker every slot is `Head`.
pub proof fn lemma_compiled_is_well_formed(specs: Seq<SlotSpecView>)
    requires
        !has_two_rests(specs),
        specs.len() <= usize::MAX,
    ensures
        compiled(specs).wf(),
        compiled(specs).slots.len() == specs.len(),
        forall|r: int|
            (0 <= r && compiled(specs).rest_index == Some(r as nat)) <==> marks_rest(specs, r),
        forall|i: int|
            0 <= i < specs.len() ==> (compiled(specs).slots[i].role == Role::Rest <==> specs[i].is_rest),
{
    let p = compiled(specs);
    assert forall|r: int| marks_rest(specs, r) implies p.rest_index == Some(r as nat) by {
        let c = choose|i: int| marks_rest(specs, i);
        assert(marks_rest(specs, c));
        if c != r {
            assert(has_two_rests(specs));
        }
    }
    assert forall|r: int| p.rest_index == Some(r as nat) && 0 <= r implies marks_rest(specs, r) by {
        let c = choose|i: int| marks_rest(specs, i);
        assert(marks_rest(specs, c));
    }
    if let Some(r) = p.rest_index {
        assert(marks_rest(specs, r as int));
    }
    assert forall|i: int| 0 <= i < specs.len() implies (p.slots[i].role == Role::Rest
        <==> specs[i].is_rest) by {
        if specs[i].is_rest {
            assert(marks_rest(specs, i));
        }
    }
}

/// Unpacking binds every slot or none. It fails on the length of the
/// sequence alone, with the error that belongs to the kind of pattern, and
/// never with `MalformedPattern`, which only compiling reports.
pub proof fn lemma_unpacking_is_all_or_nothing<T>(p: PatternView, s: Seq<T>)
    requires
        p.wf(),
    ensures
        match unpacked(p, s) {
            Ok(b) => b.len() == p.slots.len() && s.len() >= p.min_len(),
            Err(e) => match p.rest_index {
                None => e is ArityMismatch && s.len() != p.slots.len(),
                Some(_) => e is InsufficientElements && s.len() < p.min_len(),
            },
        },
{
}

/// In a sequence of a length that the pattern accepts, the access of every
/// slot stays inside and comes to the assignment of that slot.
pub proof fn lemma_access_comes_to_assignment(p: PatternView, n: nat, i: int)
    requires
        p.wf(),
        length_error(p, n) is None,
        n <= usize::MAX,
        0 <= i < p.slots.len(),
    ensures
        access_at(p, i).fits(n),
        access_at(p, i).at(n) == assignment_at(p, n, i),
{
    assert(p.slots[i].role == role_at(p.rest_index, i));
}

/// A pattern without a rest slot, applied to a sequence as long as the
/// pattern has slots, binds slot `i` to element `i`, under the slot's name
/// and mutability.
pub proof fn lemma_exact_arity_binds_in_order<T>(p: PatternView, s: Seq<T>)
    requires
        p.wf(),
        p.rest_index is None,
        s.len() == p.slots.len(),
    ensures
        unpacked(p, s) matches Ok(b) && b.len() == s.len() && forall|i: int|
            0 <= i < s.len() ==> #[trigger] b[i] == (BindingView {
                name: p.slots[i].name,
                mutable: p.slots[i].mutable,
                value: BoundView::Element(s[i]),
            }),
{
    let b = unpacked(p, s)->Ok_0;
    assert forall|i: int| 0 <= i < s.len() implies #[trigger] b[i] == (BindingView {
        name: p.slots[i].name,
        mutable: p.slots[i].mutable,
        value: BoundView::Element(s[i]),
    }) by {
        assert(p.slots[i].role == Role::Head);
    }
}

/// A pattern without a rest slot refuses every sequence whose length is not
/// its arity, and reports both lengths.
pub proof fn lemma_wrong_arity_is_refused<T>(p: PatternView, s: Seq<T>)
    requires
        p.wf(),
        p.rest_index is None,
        s.len() != p.slots.len(),
        s.len() <= usize::MAX,
    ensures
        unpacked(p, s) matches Err(UnpackError::ArityMismatch { expected, actual })
            && expected == p.slots.len() && actual == s.len(),
{
}

/// A pattern with a rest slot refuses every sequence too short to give each
/// other slot an element, and reports the length it needs and the length it
/// got.
pub proof fn lemma_short_sequence_is_refused<T>(p: PatternView, s: Seq<T>)
    requires
        p.wf(),
        p.rest_index is Some,
        s.len() + 1 < p.slots.len(),
    ensures
        unpacked(p, s) matches Err(UnpackError::InsufficientElements { required, actual })
            && required == p.slots.len() - 1 && actual == s.len(),
{
}

/// The bindings of the first `j` slots of a rest-bearing pattern hold, in
/// order, the elements before the position that slot `j` starts at.
proof fn lemma_flattened_prefix<T>(p: PatternView, s: Seq<T>, j: int)
    requires
        p.wf(),
        p.rest_index is Some,
        s.len() + 1 >= p.slots.len(),
        0 <= j <= p.slots.len(),
    ensures
        flattened(unpacked(p, s)->Ok_0.take(j)) == s.take(
            if j <= p.rest_index->0 {
                j
            } else {
                s.len() - p.slots.len() + j
            },
        ),
    decreases j,
{
    let b = unpacked(p, s)->Ok_0;
    let r = p.rest_index->0 as int;
    let surplus = s.len() - p.slots.len();
    if j == 0 {
        assert(flattened(b.take(0)) =~= s.take(0));
    } else {
        lemma_flattened_prefix(p, s, j - 1);
        let i = j - 1;
        assert(b.take(j).drop_last() =~= b.take(i));
        assert(b.take(j).last() == b[i]);
        assert(p.slots[i].role == role_at(p.rest_index, i));
        if i < r {
            assert(s.take(i) + seq![s[i]] =~= s.take(j));
        } else if i == r {
            assert(s.take(i) + s.subrange(i, surplus + i + 1) =~= s.take(surplus + j));
        } else {
            assert(s.take(surplus + i) + seq![s[surplus + i]] =~= s.take(surplus + j));
        }
    }
}

/// A pattern with its rest slot at `r`, applied to a sequence long enough to
/// give each other slot an element, binds the slots before `r` to the first
/// `r` elements, the slots after `r` to the last elements, and the rest slot
/// to everything between; the bound values, concatenated in slot order, are
/// the sequence again.
pub proof fn lemma_rest_unpacking_round_trip<T>(p: PatternView, s: Seq<T>)
    requires
        p.wf(),
        p.rest_index is Some,
        s.len() + 1 >= p.slots.len(),
    ensures
        unpacked(p, s) matches Ok(b) && ({
            let r = p.rest_index->0 as int;
            let k = p.slots.len() as int;
            let n = s.len() as int;
            let heads = s.subrange(0, r);
            let rest = s.subrange(r, n - (k - r - 1));
            let tails = s.subrange(n - (k - r - 1), n);
            &&& b.len() == k
            &&& forall|i: int| 0 <= i < r ==> (#[trigger] b[i]).value == BoundView::Element(heads[i])
            &&& b[r].value == BoundView::Rest(rest)
            &&& rest.len() == n - (k - 1)
            &&& forall|i: int|
                r < i < k ==> (#[trigger] b[i]).value == BoundView::Element(tails[i - r - 1])
            &&& heads + rest + tails == s
            &&& flattened(b) == s
        }),
{
    let b = unpacked(p, s)->Ok_0;
    let r = p.rest_index->0 as int;
    let k = p.slots.len() as int;
    let n = s.len() as int;
    assert forall|i: int| 0 <= i < k implies p.slots[i].role == role_at(
        p.rest_index,
        i,
    ) by {}
    assert(b[r].value =~= BoundView::Rest(s.subrange(r, n - (k - r - 1))));
    assert(s.subrange(0, r) + s.subrange(r, n - (k - r - 1)) + s.subrange(n - (k - r - 1), n) =~= s);
    lemma_flattened_prefix(p, s, k);
    assert(b.take(k) =~= b);
    assert(s.take(n) =~= s);
}

} // verus!
