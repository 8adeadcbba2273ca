//! Slot patterns and the compiler that validates them.

use crate::error::UnpackError;
use vstd::prelude::*;
use vstd::string::StringExecFns;

verus! {

/// Where a slot stands relative to the rest slot of its pattern.
#[derive(Clone, Copy, Debug, PartialEq, Eq, Structural)]
pub enum Role {
    /// Before the rest slot, or anywhere in a pattern without one.
    Head,
    /// The slot that absorbs every element no other slot claims.
    Rest,
    /// After the rest slot.
    Tail,
}

/// One requested binding, as a front end hands it to [`compile`].
#[derive(Clone, Debug)]
pub struct SlotSpec {
    pub name: String,
    pub mutable: bool,
    pub is_rest: bool,
}

/// Mathematical model of a [`SlotSpec`].
pub struct SlotSpecView {
    pub name: Seq<char>,
    pub mutable: bool,
    pub is_rest: bool,
}

impl View for SlotSpec {
    type V = SlotSpecView;

    open spec fn view(&self) -> SlotSpecView {
        SlotSpecView { name: self.name@, mutable: self.mutable, is_rest: self.is_rest }
    }
}

impl SlotSpec {
    /// A slot spec with a copy of `name`.
    pub fn new(name: &str, mutable: bool, is_rest: bool) -> (slot: SlotSpec)
        ensures
            slot@ == (SlotSpecView { name: name@, mutable, is_rest }),
    {
        SlotSpec { name: String::from_str(name), mutable, is_rest }
    }
}

/// The models of a run of slot specs, in order.
pub open spec fn slot_spec_views(specs: Seq<SlotSpec>) -> Seq<SlotSpecView> {
    Seq::new(specs.len(), |i: int| specs[i]@)
}

/// One slot of a compiled pattern.
#[derive(Clone, Debug)]
pub struct Slot {
    pub name: String,
    pub mutable: bool,
    pub role: Role,
}

/// Mathematical model of a [`Slot`].
pub struct SlotView {
    pub name: Seq<char>,
    pub mutable: bool,
    pub role: Role,
}

impl View for Slot {
    type V = SlotView;

    open spec fn view(&self) -> SlotView {
        SlotView { name: self.name@, mutable: self.mutable, role: self.role }
    }
}

/// The role of position `i` in a pattern whose rest slot, if any, is at `rest_index`.
pub open spec fn role_at(rest_index: Option<nat>, i: int) -> Role {
    match rest_index {
        None => Role::Head,
        Some(r) => if i < r {
            Role::Head
        } else if i == r {
            Role::Rest
        } else {
            Role::Tail
        },
    }
}

/// Mathematical model of a [`Pattern`]: its slots in declaration order and
/// the position of its rest slot.
pub struct PatternView {
    pub slots: Seq<SlotView>,
    pub rest_index: Option<nat>,
}

impl PatternView {
    /// The rest index, if any, names a slot, and every slot carries the role
    /// that its position relative to the rest index gives it. So at most one
    /// slot is `Rest`, every slot before it is `Head` and every slot after it
    /// is `Tail`.
    pub open spec fn wf(self) -> bool {
        &&& self.slots.len() <= usize::MAX
        &&& (self.rest_index matches Some(r) ==> r < self.slots.len())
        &&& forall|i: int|
            0 <= i < self.slots.len() ==> (#[trigger] self.slots[i]).role == role_at(
                self.rest_index,
                i,
            )
    }

    /// The number of slots.
    pub open spec fn arity(self) -> nat {
        self.slots.len()
    }

    /// The shortest sequence the pattern can be applied to: the rest slot may
    /// stay empty, every other slot takes one element.
    pub open spec fn min_len(self) -> nat {
        match self.rest_index {
            None => self.slots.len(),
            Some(_) => (self.slots.len() - 1) as nat,
        }
    }
}

/// Position `i` of `specs` carries a rest marker.
pub open spec fn marks_rest(specs: Seq<SlotSpecView>, i: int) -> bool {
    0 <= i < specs.len() && specs[i].is_rest
}

/// Two different positions of `specs` carry a rest marker.
pub open spec fn has_two_rests(specs: Seq<SlotSpecView>) -> bool {
    exists|i: int, j: int| i != j && #[trigger] marks_rest(specs, i) && #[trigger] marks_rest(specs, j)
}

/// The position that carries a rest marker, if any does.
pub open spec fn rest_position(specs: Seq<SlotSpecView>) -> Option<nat> {
    if exists|i: int| marks_rest(specs, i) {
        Some((choose|i: int| marks_rest(specs, i)) as nat)
    } else {
        None
    }
}

/// The pattern that a slot list with at most one rest marker compiles to:
/// names and mutability are taken over in order, the marked position becomes
/// the rest index, and roles follow from it.
pub open spec fn compiled(specs: Seq<SlotSpecView>) -> PatternView {
    let rest_index = rest_position(specs);
    PatternView {
        slots: Seq::new(
            specs.len(),
            |i: int|
                SlotView {
                    name: specs[i].name,
                    mutable: specs[i].mutable,
                    role: role_at(rest_index, i),
                },
        ),
        rest_index,
    }
}

/// A validated pattern. It is built once by [`compile`], never changes
/// afterwards, and can be applied to any number of sequences.
#[derive(Debug)]
pub struct Pattern {
    slots: Vec<Slot>,
    rest_index: Option<usize>,
}

impl View for Pattern {
    type V = PatternView;

    closed spec fn view(&self) -> PatternView {
        PatternView {
            slots: Seq::new(self.slots@.len(), |i: int| self.slots@[i]@),
            rest_index: match self.rest_index {
                Some(r) => Some(r as nat),
                None => None,
            },
        }
    }
}

impl Pattern {
    /// Every pattern that exists at run time is well formed.
    #[verifier::type_invariant]
    pub open spec fn inv(&self) -> bool {
        self@.wf()
    }

    /// The number of slots.
    pub fn arity(&self) -> (k: usize)
        ensures
            k == self@.slots.len(),
    {
        self.slots.len()
    }

    /// The length of the shortest sequence that the pattern can be applied
    /// to.
    pub fn min_len(&self) -> (n: usize)
        ensures
            n == self@.min_len(),
    {
        proof {
            use_type_invariant(self);
        }
        match self.rest_index {
            None => self.slots.len(),
            Some(_) => self.slots.len() - 1,
        }
    }

    /// The position of the rest slot, if the pattern has one.
    pub fn rest_index(&self) -> (rest: Option<usize>)
        ensures
            match rest {
                Some(r) => self@.rest_index == Some(r as nat),
                None => self@.rest_index is None,
            },
    {
        self.rest_index
    }

    /// The slot at position `i` of a pattern that has one there.
    pub(crate) fn slot_at(&self, i: usize) -> (slot: &Slot)
        requires
            i < self@.slots.len(),
        ensures
            slot@ == self@.slots[i as int],
    {
        &self.slots[i]
    }

    /// The slot at position `i`, or `None` past the last slot.
    pub fn slot(&self, i: usize) -> (slot: Option<&Slot>)
        ensures
            match slot {
                Some(s) => i < self@.slots.len() && s@ == self@.slots[i as int],
                None => i >= self@.slots.len(),
            },
    {
        if i < self.slots.len() {
            Some(&self.slots[i])
        } else {
            None
        }
    }
}

/// Compiles a slot list into a pattern.
///
/// Fails with `MalformedPattern` exactly when two slots carry a rest marker;
/// any other list compiles, to the pattern that [`compiled`] describes.
/// Names are not compared: two slots may share one, and each is bound on its
/// own.
pub fn compile(slot_specs: &[SlotSpec]) -> (res: Result<Pattern, UnpackError>)
    ensures
        res is Err <==> has_two_rests(slot_spec_views(slot_specs@)),
        res matches Err(e) ==> e == UnpackError::MalformedPattern,
        res matches Ok(pattern) ==> pattern@ == compiled(slot_spec_views(slot_specs@)) && pattern@.wf(),
{
    let ghost specs = slot_spec_views(slot_specs@);
    let mut slots: Vec<Slot> = Vec::new();
    let mut rest_index: Option<usize> = None;
    let mut i: usize = 0;
    while i < slot_specs.len()
        invariant
            i <= slot_specs.len(),
            specs == slot_spec_views(slot_specs@),
            slots@.len() == i,
            rest_index matches Some(r) ==> r < i && marks_rest(specs, r as int),
            forall|j: int| 0 <= j < i && marks_rest(specs, j) ==> rest_index == Some(j as usize),
            forall|j: int|
                0 <= j < i ==> (#[trigger] slots@[j])@ == (SlotView {
                    name: specs[j].name,
                    mutable: specs[j].mutable,
                    role: role_at(
                        match rest_index {
                            Some(r) => Some(r as nat),
                            None => None,
                        },
                        j,
                    ),
                }),
        decreases slot_specs.len() - i,
    {
        let requested = &slot_specs[i];
        assert(specs[i as int] == requested@);
        let role = if requested.is_rest {
            match rest_index {
                Some(r) => {
                    assert(marks_rest(specs, r as int) && marks_rest(specs, i as int));
                    return Err(UnpackError::MalformedPattern);
                },
                None => {
                    rest_index = Some(i);
                    Role::Rest
                },
            }
        } else {
            match rest_index {
                Some(_) => Role::Tail,
                None => Role::Head,
            }
        };
        slots.push(Slot { name: requested.name.clone(), mutable: requested.mutable, role });
        i += 1;
    }
    let pattern = Pattern { slots, rest_index };
    proof {
        assert(!has_two_rests(specs));
        if let Some(r) = rest_index {
            assert(marks_rest(specs, r as int));
        }
        assert(pattern@.rest_index == rest_position(specs));
        assert(pattern@.slots =~= compiled(specs).slots);
    }
    Ok(pattern)
}

} // verus!
