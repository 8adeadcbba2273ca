//! The unpacking executor: maps the slots of a pattern onto the positions of
//! a concrete sequence and binds each slot to what it finds there.

use crate::error::UnpackError;
use crate::pattern::{
    compile, compiled, has_two_rests, role_at, slot_spec_views, Pattern, PatternView, Role, SlotSpec,
};
use vstd::prelude::*;
use vstd::slice::{slice_subrange, slice_to_vec};
use vstd::string::StringExecFns;

verus! {

/// The part of a sequence that one slot is bound to.
#[derive(Clone, Copy, Debug, PartialEq, Eq, Structural)]
pub enum Assignment {
    /// The single element at `index`.
    Element { index: usize },
    /// The elements from `start` up to, not including, `end`.
    Span { start: usize, end: usize },
}

/// Where a slot finds its part in a sequence of any length that its pattern
/// accepts. Positions behind the rest slot are counted from the end.
#[derive(Clone, Copy, Debug, PartialEq, Eq, Structural)]
pub enum Access {
    /// The element at `index`.
    FromStart { index: usize },
    /// The element `back` places before the end.
    FromEnd { back: usize },
    /// The elements from `start` up to `back` places before the end.
    Between { start: usize, back: usize },
}

impl Access {
    /// The access stays inside a sequence of length `n`.
    pub open spec fn fits(self, n: nat) -> bool {
        match self {
            Access::FromStart { index } => index < n,
            Access::FromEnd { back } => 1 <= back <= n,
            Access::Between { start, back } => start + back <= n,
        }
    }

    /// What the access comes to in a sequence of length `n`.
    pub open spec fn at(self, n: nat) -> Assignment {
        match self {
            Access::FromStart { index } => Assignment::Element { index },
            Access::FromEnd { back } => Assignment::Element { index: (n - back) as usize },
            Access::Between { start, back } => Assignment::Span {
                start,
                end: (n - back) as usize,
            },
        }
    }

    /// What the access comes to in a sequence of length `len`, or nothing if
    /// it does not stay inside.
    pub fn resolve(&self, len: usize) -> (res: Option<Assignment>)
        ensures
            res == if self.fits(len as nat) {
                Some(self.at(len as nat))
            } else {
                None
            },
    {
        match *self {
            Access::FromStart { index } => if index < len {
                Some(Assignment::Element { index })
            } else {
                None
            },
            Access::FromEnd { back } => if 1 <= back && back <= len {
                Some(Assignment::Element { index: len - back })
            } else {
                None
            },
            Access::Between { start, back } => if back <= len && start <= len - back {
                Some(Assignment::Span { start, end: len - back })
            } else {
                None
            },
        }
    }
}

/// The value bound to one slot: one element, or for the rest slot an owned
/// run of elements.
#[derive(Clone, Debug, PartialEq, Eq)]
pub enum Bound<T> {
    Element(T),
    Rest(Vec<T>),
}

/// Mathematical model of a [`Bound`].
pub enum BoundView<T> {
    Element(T),
    Rest(Seq<T>),
}

impl<T> View for Bound<T> {
    type V = BoundView<T>;

    open spec fn view(&self) -> BoundView<T> {
        match self {
            Bound::Element(x) => BoundView::Element(*x),
            Bound::Rest(xs) => BoundView::Rest(xs@),
        }
    }
}

/// One slot of a pattern together with the value it was bound to. The value
/// can be read through any binding and written only through a mutable one.
#[derive(Clone, Debug, PartialEq, Eq)]
pub struct Binding<T> {
    name: String,
    mutable: bool,
    value: Bound<T>,
}

/// Mathematical model of a [`Binding`].
pub struct BindingView<T> {
    pub name: Seq<char>,
    pub mutable: bool,
    pub value: BoundView<T>,
}

impl<T> View for Binding<T> {
    type V = BindingView<T>;

    closed spec fn view(&self) -> BindingView<T> {
        BindingView { name: self.name@, mutable: self.mutable, value: self.value@ }
    }
}

impl<T> Binding<T> {
    /// The name of the slot.
    pub fn name(&self) -> (name: &str)
        ensures
            name@ == self@.name,
    {
        self.name.as_str()
    }

    /// Whether the bound value may be written.
    pub fn is_mutable(&self) -> (mutable: bool)
        ensures
            mutable == self@.mutable,
    {
        self.mutable
    }

    /// The bound value, for reading.
    pub fn value(&self) -> (value: &Bound<T>)
        ensures
            value@ == self@.value,
    {
        &self.value
    }

    /// Gives up the binding for the value it holds.
    pub fn into_value(self) -> (value: Bound<T>)
        ensures
            value@ == self@.value,
    {
        self.value
    }

    /// Replaces the element of a mutable single-element binding. Any other
    /// binding stays as it is, and the answer is `false`.
    pub fn assign(&mut self, element: T) -> (written: bool)
        ensures
            written == (old(self)@.mutable && old(self)@.value is Element),
            written ==> final(self)@ == (BindingView {
                value: BoundView::Element(element),
                ..old(self)@
            }),
            !written ==> final(self)@ == old(self)@,
    {
        if !self.mutable {
            return false;
        }
        match self.value {
            Bound::Element(_) => {
                self.value = Bound::Element(element);
                true
            },
            Bound::Rest(_) => false,
        }
    }

    /// Appends an element to the run of a mutable rest binding. Any other
    /// binding stays as it is, and the answer is `false`.
    pub fn append(&mut self, element: T) -> (written: bool)
        ensures
            written == (old(self)@.mutable && old(self)@.value is Rest),
            written ==> final(self)@ == (BindingView {
                value: BoundView::Rest(old(self)@.value->Rest_0.push(element)),
                ..old(self)@
            }),
            !written ==> final(self)@ == old(self)@,
    {
        if !self.mutable {
            return false;
        }
        match &mut self.value {
            Bound::Element(_) => false,
            Bound::Rest(run) => {
                run.push(element);
                true
            },
        }
    }
}

/// What one unpacking produces: a binding for every slot, in slot order.
#[derive(Clone, Debug, PartialEq, Eq)]
pub struct BindingResult<T> {
    pub bindings: Vec<Binding<T>>,
}

impl<T> View for BindingResult<T> {
    type V = Seq<BindingView<T>>;

    open spec fn view(&self) -> Seq<BindingView<T>> {
        Seq::new(self.bindings@.len(), |i: int| self.bindings@[i]@)
    }
}

impl<T> BindingResult<T> {
    /// The position of the binding that `name` refers to: the last one of
    /// that name, since a later slot shadows an earlier one of the same name.
    pub fn position(&self, name: &str) -> (found: Option<usize>)
        ensures
            match found {
                Some(i) => {
                    &&& i < self@.len()
                    &&& self@[i as int].name == name@
                    &&& forall|j: int| i < j < self@.len() ==> self@[j].name != name@
                },
                None => forall|j: int| 0 <= j < self@.len() ==> self@[j].name != name@,
            },
    {
        let wanted = String::from_str(name);
        let mut i: usize = self.bindings.len();
        while i > 0
            invariant
                i <= self.bindings@.len(),
                wanted@ == name@,
                forall|j: int| i <= j < self@.len() ==> self@[j].name != name@,
            decreases i,
        {
            i -= 1;
            if self.bindings[i].name == wanted {
                return Some(i);
            }
        }
        None
    }
}

/// The error, if any, with which a pattern refuses a sequence of length `n`.
///
/// Without a rest slot the length must equal the arity. With one, every
/// other slot needs an element, and the rest slot may stay empty.
pub open spec fn length_error(p: PatternView, n: nat) -> Option<UnpackError> {
    match p.rest_index {
        None => if n == p.arity() {
            None
        } else {
            Some(UnpackError::ArityMismatch { expected: p.arity() as usize, actual: n as usize })
        },
        Some(_) => if n >= p.min_len() {
            None
        } else {
            Some(
                UnpackError::InsufficientElements {
                    required: p.min_len() as usize,
                    actual: n as usize,
                },
            )
        },
    }
}

/// The part of a sequence of length `n` that slot `i` is bound to: head
/// slots count from the start, tail slots from the end, and the rest slot
/// spans what lies between.
pub open spec fn assignment_at(p: PatternView, n: nat, i: int) -> Assignment {
    let surplus = n - p.slots.len();
    match p.slots[i].role {
        Role::Head => Assignment::Element { index: i as usize },
        Role::Rest => Assignment::Span { start: i as usize, end: (surplus + i + 1) as usize },
        Role::Tail => Assignment::Element { index: (surplus + i) as usize },
    }
}

/// How slot `i` finds its part whatever the length: a head slot at its own
/// position, a tail slot as far from the end as it is from the end of the
/// pattern, and the rest slot between the two.
pub open spec fn access_at(p: PatternView, i: int) -> Access {
    let k = p.slots.len();
    match p.slots[i].role {
        Role::Head => Access::FromStart { index: i as usize },
        Role::Rest => Access::Between { start: i as usize, back: (k - 1 - i) as usize },
        Role::Tail => Access::FromEnd { back: (k - i) as usize },
    }
}

/// The assignments of all slots for a sequence of length `n`, or the error
/// with which the pattern refuses that length.
pub open spec fn assigned(p: PatternView, n: nat) -> Result<Seq<Assignment>, UnpackError> {
    match length_error(p, n) {
        Some(e) => Err(e),
        None => Ok(Seq::new(p.slots.len(), |i: int| assignment_at(p, n, i))),
    }
}

/// The value that slot `i` is bound to in sequence `s`.
pub open spec fn bound_at<T>(p: PatternView, s: Seq<T>, i: int) -> BoundView<T> {
    let surplus = s.len() - p.slots.len();
    match p.slots[i].role {
        Role::Head => BoundView::Element(s[i]),
        Role::Rest => BoundView::Rest(s.subrange(i, surplus + i + 1)),
        Role::Tail => BoundView::Element(s[surplus + i]),
    }
}

/// The outcome of unpacking `s` by `p`: a binding per slot, in slot order,
/// or the error with which the pattern refuses the length of `s`.
pub open spec fn unpacked<T>(p: PatternView, s: Seq<T>) -> Result<Seq<BindingView<T>>, UnpackError> {
    match length_error(p, s.len()) {
        Some(e) => Err(e),
        None => Ok(
            Seq::new(
                p.slots.len(),
                |i: int|
                    BindingView {
                        name: p.slots[i].name,
                        mutable: p.slots[i].mutable,
                        value: bound_at(p, s, i),
                    },
            ),
        ),
    }
}

/// The model of what an unpacking returned: the bindings by their models,
/// or the error.
pub open spec fn outcome<T>(res: Result<BindingResult<T>, UnpackError>) -> Result<
    Seq<BindingView<T>>,
    UnpackError,
> {
    match res {
        Ok(bound) => Ok(bound@),
        Err(e) => Err(e),
    }
}

impl Pattern {
    /// The error, if any, with which the pattern refuses a sequence of
    /// length `len`.
    pub fn refusal(&self, len: usize) -> (refused: Option<UnpackError>)
        ensures
            refused == length_error(self@, len as nat),
    {
        proof {
            use_type_invariant(self);
        }
        match self.rest_index() {
            None => if len == self.arity() {
                None
            } else {
                Some(UnpackError::ArityMismatch { expected: self.arity(), actual: len })
            },
            Some(_) => if len >= self.min_len() {
                None
            } else {
                Some(UnpackError::InsufficientElements { required: self.min_len(), actual: len })
            },
        }
    }

    /// How slot `i` finds its part in a sequence of any length that the
    /// pattern accepts, or nothing past the last slot.
    pub fn access(&self, i: usize) -> (res: Option<Access>)
        ensures
            res == if i < self@.slots.len() {
                Some(access_at(self@, i as int))
            } else {
                None
            },
    {
        proof {
            use_type_invariant(self);
        }
        let k = self.arity();
        if i >= k {
            return None;
        }
        assert(self@.slots[i as int].role == role_at(self@.rest_index, i as int));
        match self.slot_at(i).role {
            Role::Head => Some(Access::FromStart { index: i }),
            Role::Rest => Some(Access::Between { start: i, back: k - 1 - i }),
            Role::Tail => Some(Access::FromEnd { back: k - i }),
        }
    }

    /// Computes, for a sequence of length `len`, which element or span each
    /// slot is bound to, or the error with which the pattern refuses `len`.
    pub fn assignments(&self, len: usize) -> (res: Result<Vec<Assignment>, UnpackError>)
        ensures
            match (res, assigned(self@, len as nat)) {
                (Ok(plan), Ok(a)) => plan@ == a,
                (Err(e), Err(f)) => e == f,
                _ => false,
            },
    {
        proof {
            use_type_invariant(self);
        }
        if let Some(e) = self.refusal(len) {
            return Err(e);
        }
        let k = self.arity();
        let rest = self.rest_index();
        let mut plan: Vec<Assignment> = Vec::new();
        let mut i: usize = 0;
        while i < k
            invariant
                i <= k,
                k == self@.slots.len(),
                self@.wf(),
                length_error(self@, len as nat) is None,
                match rest {
                    Some(r) => self@.rest_index == Some(r as nat),
                    None => self@.rest_index is None,
                },
                plan@.len() == i,
                forall|j: int| 0 <= j < i ==> plan@[j] == assignment_at(self@, len as nat, j),
            decreases k - i,
        {
            let assignment = match rest {
                None => Assignment::Element { index: i },
                Some(r) => if i < r {
                    Assignment::Element { index: i }
                } else if i == r {
                    Assignment::Span { start: i, end: len - (k - 1 - i) }
                } else {
                    Assignment::Element { index: len - (k - i) }
                },
            };
            assert(self@.slots[i as int].role == role_at(self@.rest_index, i as int));
            plan.push(assignment);
            i += 1;
        }
        assert(plan@ =~= assigned(self@, len as nat)->Ok_0);
        Ok(plan)
    }
}

/// Unpacks a borrowed sequence by a pattern, copying what each slot is
/// bound to. The sequence stays with the caller.
pub fn unpack_slice<T: Copy>(pattern: &Pattern, sequence: &[T]) -> (res: Result<
    BindingResult<T>,
    UnpackError,
>)
    ensures
        outcome(res) == unpacked(pattern@, sequence@),
{
    proof {
        use_type_invariant(pattern);
    }
    let len = sequence.len();
    let plan = match pattern.assignments(len) {
        Ok(plan) => plan,
        Err(e) => {
            return Err(e);
        },
    };
    let mut bindings: Vec<Binding<T>> = Vec::new();
    let mut i: usize = 0;
    while i < plan.len()
        invariant
            i <= plan.len(),
            len == sequence@.len(),
            pattern@.wf(),
            length_error(pattern@, len as nat) is None,
            plan@ == assigned(pattern@, len as nat)->Ok_0,
            plan@.len() == pattern@.slots.len(),
            bindings@.len() == i,
            forall|j: int|
                0 <= j < i ==> (#[trigger] bindings@[j])@ == (BindingView {
                    name: pattern@.slots[j].name,
                    mutable: pattern@.slots[j].mutable,
                    value: bound_at(pattern@, sequence@, j),
                }),
        decreases plan.len() - i,
    {
        assert(plan@[i as int] == assignment_at(pattern@, len as nat, i as int));
        assert(pattern@.slots[i as int].role == role_at(
            pattern@.rest_index,
            i as int,
        ));
        let value = match plan[i] {
            Assignment::Element { index } => Bound::Element(sequence[index]),
            Assignment::Span { start, end } => Bound::Rest(
                slice_to_vec(slice_subrange(sequence, start, end)),
            ),
        };
        let slot = pattern.slot_at(i);
        bindings.push(Binding { name: slot.name.clone(), mutable: slot.mutable, value });
        i += 1;
    }
    let bound = BindingResult { bindings };
    assert(bound@ =~= unpacked(pattern@, sequence@)->Ok_0);
    Ok(bound)
}

/// Binds the slots that follow those already bound to one element each,
/// moving the elements out of `items`.
fn bind_elements<T>(pattern: &Pattern, items: Vec<T>, bindings: &mut Vec<Binding<T>>)
    requires
        old(bindings)@.len() + items@.len() <= pattern@.slots.len(),
    ensures
        final(bindings)@.len() == old(bindings)@.len() + items@.len(),
        forall|j: int| 0 <= j < old(bindings)@.len() ==> final(bindings)@[j] == old(bindings)@[j],
        forall|j: int|
            0 <= j < items@.len() ==> (#[trigger] final(bindings)@[old(bindings)@.len() + j])@ == (
            BindingView {
                name: pattern@.slots[old(bindings)@.len() + j].name,
                mutable: pattern@.slots[old(bindings)@.len() + j].mutable,
                value: BoundView::Element(items@[j]),
            }),
{
    let ghost before = bindings@;
    for x in it: items
        invariant
            before.len() + items@.len() <= pattern@.slots.len(),
            it.seq() == items@,
            bindings@.len() == before.len() + it.index(),
            forall|j: int| 0 <= j < before.len() ==> bindings@[j] == before[j],
            forall|j: int|
                0 <= j < it.index() ==> (#[trigger] bindings@[before.len() + j])@ == (BindingView {
                    name: pattern@.slots[before.len() + j].name,
                    mutable: pattern@.slots[before.len() + j].mutable,
                    value: BoundView::Element(items@[j]),
                }),
    {
        let slot = pattern.slot_at(bindings.len());
        bindings.push(
            Binding { name: slot.name.clone(), mutable: slot.mutable, value: Bound::Element(x) },
        );
    }
}

/// Unpacks a sequence by a pattern and consumes it: the elements move into
/// the bindings, and the sequence is gone.
pub fn unpack<T>(pattern: &Pattern, sequence: Vec<T>) -> (res: Result<BindingResult<T>, UnpackError>)
    ensures
        outcome(res) == unpacked(pattern@, sequence@),
{
    proof {
        use_type_invariant(pattern);
    }
    let len = sequence.len();
    if let Some(e) = pattern.refusal(len) {
        return Err(e);
    }
    let k = pattern.arity();
    let ghost s = sequence@;
    let ghost want = unpacked(pattern@, s)->Ok_0;
    let mut heads = sequence;
    let mut bindings: Vec<Binding<T>> = Vec::new();
    if let Some(r) = pattern.rest_index() {
        let tails = heads.split_off(len - (k - 1 - r));
        let run = heads.split_off(r);
        assert(run@ =~= s.subrange(r as int, len - k + r + 1));
        assert(forall|j: int| 0 <= j < heads@.len() ==> heads@[j] == s[j]);
        assert(forall|j: int| 0 <= j < tails@.len() ==> tails@[j] == s[len - k + r + 1 + j]);
        bind_elements(pattern, heads, &mut bindings);
        let ghost bound_heads = bindings@;
        let slot = pattern.slot_at(r);
        bindings.push(
            Binding { name: slot.name.clone(), mutable: slot.mutable, value: Bound::Rest(run) },
        );
        let ghost bound_rest = bindings@;
        bind_elements(pattern, tails, &mut bindings);
        proof {
            assert forall|i: int| 0 <= i < k implies (#[trigger] bindings@[i])@ == want[i] by {
                assert(pattern@.slots[i].role == role_at(pattern@.rest_index, i));
                if i < r {
                    assert(bound_heads[0 + i]@.value == BoundView::Element(heads@[i]));
                    assert(bound_rest[i] == bound_heads[i]);
                } else if i == r {
                    assert(bindings@[i] == bound_rest[i]);
                } else {
                    assert(bindings@[bound_rest.len() + (i - r - 1)]@.value == BoundView::Element(
                        tails@[i - r - 1],
                    ));
                }
            }
        }
    } else {
        bind_elements(pattern, heads, &mut bindings);
        proof {
            assert forall|i: int| 0 <= i < k implies (#[trigger] bindings@[i])@ == want[i] by {
                assert(pattern@.slots[i].role == role_at(pattern@.rest_index, i));
                assert(bindings@[0 + i]@.value == BoundView::Element(heads@[i]));
            }
        }
    }
    let bound = BindingResult { bindings };
    assert(bound@ =~= want);
    Ok(bound)
}

/// Compiles a slot list and unpacks a sequence by it in one step, consuming
/// the sequence.
pub fn let_unpack<T>(slot_specs: &[SlotSpec], sequence: Vec<T>) -> (res: Result<
    BindingResult<T>,
    UnpackError,
>)
    ensures
        outcome(res) == if has_two_rests(slot_spec_views(slot_specs@)) {
            Err(UnpackError::MalformedPattern)
        } else {
            unpacked(compiled(slot_spec_views(slot_specs@)), sequence@)
        },
{
    match compile(slot_specs) {
        Ok(pattern) => unpack(&pattern, sequence),
        Err(e) => Err(e),
    }
}

} // verus!
