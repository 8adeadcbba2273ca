//! The let-statement that names a pattern and the sequence to unpack:
//! `a, *mut b, c = source`. Tokens come from a front end; this module owns
//! the grammar.

use crate::pattern::{slot_spec_views, SlotSpec, SlotSpecView};
use crate::token::{token_views, Token, TokenView};
use vstd::prelude::*;

verus! {

/// A parsed let-statement: the slots on the left of `=`, in order, and the
/// name of the sequence on its right.
#[derive(Clone, Debug)]
pub struct LetStatement {
    pub slots: Vec<SlotSpec>,
    pub source: String,
}

/// Mathematical model of a [`LetStatement`].
pub struct LetStatementView {
    pub slots: Seq<SlotSpecView>,
    pub source: Seq<char>,
}

impl View for LetStatement {
    type V = LetStatementView;

    open spec fn view(&self) -> LetStatementView {
        LetStatementView { slots: slot_spec_views(self.slots@), source: self.source@ }
    }
}

/// Where the tokens stop being a let-statement: the position of the first
/// token that no statement has there, or the number of tokens if they end
/// too early.
#[derive(Clone, Copy, Debug, PartialEq, Eq, Structural)]
pub struct SyntaxError {
    pub at: usize,
}

/// How one slot is written: `*` if it is the rest slot, `mut` if it is
/// mutable, and its name.
pub open spec fn slot_tokens(slot: SlotSpecView) -> Seq<TokenView> {
    if slot.is_rest {
        if slot.mutable {
            seq![TokenView::Star, TokenView::Mut, TokenView::Ident(slot.name)]
        } else {
            seq![TokenView::Star, TokenView::Ident(slot.name)]
        }
    } else {
        if slot.mutable {
            seq![TokenView::Mut, TokenView::Ident(slot.name)]
        } else {
            seq![TokenView::Ident(slot.name)]
        }
    }
}

/// How a list of slots is written: slot by slot, with a comma between two.
pub open spec fn slot_list_tokens(slots: Seq<SlotSpecView>) -> Seq<TokenView>
    decreases slots.len(),
{
    if slots.len() == 0 {
        Seq::empty()
    } else if slots.len() == 1 {
        slot_tokens(slots[0])
    } else {
        slot_list_tokens(slots.drop_last()) + seq![TokenView::Comma] + slot_tokens(slots.last())
    }
}

/// How a statement is written: its slots, `=`, and the name of its source.
pub open spec fn statement_tokens(st: LetStatementView) -> Seq<TokenView> {
    slot_list_tokens(st.slots) + seq![TokenView::Assign, TokenView::Ident(st.source)]
}

/// `tokens` is how the statement `st` is written. A statement has at least
/// one slot.
pub open spec fn spells(tokens: Seq<TokenView>, st: LetStatementView) -> bool {
    st.slots.len() >= 1 && tokens == statement_tokens(st)
}

/// The statement `st`, written out, begins with `prefix`.
pub open spec fn begins_with(st: LetStatementView, prefix: Seq<TokenView>) -> bool {
    st.slots.len() >= 1 && prefix.is_prefix_of(statement_tokens(st))
}

/// Some statement begins with `prefix`.
pub open spec fn begins_statement(prefix: Seq<TokenView>) -> bool {
    exists|st: LetStatementView| begins_with(st, prefix)
}

/// What is written before slot `i` of a slot list: the slots before it, each
/// followed by a comma.
spec fn lead(slots: Seq<SlotSpecView>, i: int) -> Seq<TokenView> {
    if i <= 0 {
        Seq::empty()
    } else {
        slot_list_tokens(slots.take(i)) + seq![TokenView::Comma]
    }
}

/// Writing the first `i + 1` slots is writing what precedes slot `i` and
/// slot `i` itself.
proof fn lemma_list_step(slots: Seq<SlotSpecView>, i: int)
    requires
        0 <= i < slots.len(),
    ensures
        slot_list_tokens(slots.take(i + 1)) == lead(slots, i) + slot_tokens(slots[i]),
{
    let upto = slots.take(i + 1);
    assert(upto.last() == slots[i]);
    if i == 0 {
        assert(upto[0] == slots[0]);
        assert(lead(slots, 0) + slot_tokens(slots[0]) =~= slot_tokens(slots[0]));
    } else {
        assert(upto.drop_last() =~= slots.take(i));
    }
}

/// Where slot `i` of a statement stands among its tokens, and what follows
/// it: a comma and the next slot, or `=`, the source, and nothing more.
proof fn lemma_slot_at(st: LetStatementView, i: int)
    requires
        0 <= i < st.slots.len(),
    ensures
        ({
            let w = statement_tokens(st);
            let at = lead(st.slots, i).len() as int;
            let ts = slot_tokens(st.slots[i]);
            &&& w.len() >= at + ts.len() + 2
            &&& w.take(at) == lead(st.slots, i)
            &&& forall|k: int| 0 <= k < ts.len() ==> w[at + k] == ts[k]
            &&& if i + 1 < st.slots.len() {
                &&& w[at + ts.len()] == TokenView::Comma
                &&& w.take(at + ts.len() + 1) == lead(st.slots, i + 1)
            } else {
                &&& w[at + ts.len()] == TokenView::Assign
                &&& w[at + ts.len() + 1] == TokenView::Ident(st.source)
                &&& w.len() == at + ts.len() + 2
            }
        }),
    decreases st.slots.len() - i,
{
    let w = statement_tokens(st);
    let at = lead(st.slots, i).len() as int;
    let ts = slot_tokens(st.slots[i]);
    lemma_list_step(st.slots, i);
    if i + 1 < st.slots.len() {
        lemma_slot_at(st, i + 1);
        let next = lead(st.slots, i + 1);
        assert(next =~= lead(st.slots, i) + ts + seq![TokenView::Comma]);
        assert(w.take(next.len() as int) == next);
        assert forall|k: int| 0 <= k < next.len() implies w[k] == next[k] by {
            assert(w.take(next.len() as int)[k] == w[k]);
        }
        assert(w.take(at) =~= lead(st.slots, i));
        assert forall|k: int| 0 <= k < ts.len() implies w[at + k] == ts[k] by {
            assert(next[at + k] == ts[k]);
        }
        assert(w[at + ts.len()] == next[at + ts.len()]);
    } else {
        assert(st.slots.take(i + 1) =~= st.slots);
        assert(w =~= lead(st.slots, i) + ts + seq![
            TokenView::Assign,
            TokenView::Ident(st.source),
        ]);
        assert(w.take(at) =~= lead(st.slots, i));
    }
}

/// A statement that begins with a run of tokens begins with every shorter
/// run of them, and has those tokens where the run has them.
proof fn lemma_begins_with_shorter(
    st: LetStatementView,
    tokens: Seq<TokenView>,
    shorter: int,
    longer: int,
)
    requires
        0 <= shorter <= longer <= tokens.len(),
        begins_with(st, tokens.take(longer)),
    ensures
        begins_with(st, tokens.take(shorter)),
        statement_tokens(st).len() >= longer,
        forall|j: int| 0 <= j < longer ==> tokens[j] == statement_tokens(st)[j],
{
    let w = statement_tokens(st);
    assert forall|j: int| 0 <= j < longer implies tokens[j] == w[j] by {
        assert(tokens.take(longer)[j] == w.subrange(0, longer)[j]);
    }
    assert(tokens.take(shorter) =~= w.subrange(0, shorter));
}

/// The runs of tokens that begin a statement are closed under shortening.
/// So where `parse` stops is the one position up to which the tokens begin
/// a statement and past which they do not.
pub proof fn lemma_shorter_run_begins_statement(
    tokens: Seq<TokenView>,
    shorter: int,
    longer: int,
)
    requires
        0 <= shorter <= longer <= tokens.len(),
        begins_statement(tokens.take(longer)),
    ensures
        begins_statement(tokens.take(shorter)),
{
    let st = choose|st: LetStatementView| begins_with(st, tokens.take(longer));
    lemma_begins_with_shorter(st, tokens, shorter, longer);
}

/// A statement that the tokens spell begins with every run of them.
proof fn lemma_spelled_begins(st: LetStatementView, tokens: Seq<TokenView>, upto: int)
    requires
        spells(tokens, st),
        0 <= upto <= tokens.len(),
    ensures
        begins_with(st, tokens.take(upto)),
{
    assert(tokens.take(upto) =~= statement_tokens(st).subrange(0, upto));
}

/// Once no statement begins with the first `upto` tokens, the tokens spell
/// none.
proof fn lemma_dead_end(tokens: Seq<TokenView>, upto: int)
    requires
        0 <= upto <= tokens.len(),
        forall|st: LetStatementView| !begins_with(st, tokens.take(upto)),
    ensures
        !begins_statement(tokens.take(upto)),
        forall|st: LetStatementView| !spells(tokens, st),
{
    assert forall|st: LetStatementView| !spells(tokens, st) by {
        if spells(tokens, st) {
            lemma_spelled_begins(st, tokens, upto);
        }
    }
}

/// The reader stands at `start`, where the slot after `done` begins: the
/// tokens so far are `done` with a comma after each slot, and every
/// statement that begins with them has `done` as its first slots and at
/// least one more.
spec fn at_slot_start(tokens: Seq<TokenView>, done: Seq<SlotSpecView>, start: int) -> bool {
    &&& 0 <= start <= tokens.len()
    &&& tokens.take(start) == lead(done, done.len() as int)
    &&& forall|st: LetStatementView| #[trigger]
        begins_with(st, tokens.take(start)) ==> st.slots.len() > done.len() && st.slots.take(
            done.len() as int,
        ) =~= done
}

/// The tokens from `start` up to `q` are the first tokens of the slot `cur`.
spec fn reads(tokens: Seq<TokenView>, start: int, q: int, cur: SlotSpecView) -> bool {
    &&& start <= q <= tokens.len()
    &&& q - start <= slot_tokens(cur).len()
    &&& forall|k: int| 0 <= k < q - start ==> tokens[start + k] == slot_tokens(cur)[k]
}

/// The reader stands at `pos`, behind `=`: the tokens so far are the slots
/// `all` and `=`, and every statement that begins with them has exactly the
/// slots `all`.
spec fn after_assign(tokens: Seq<TokenView>, all: Seq<SlotSpecView>, pos: int) -> bool {
    &&& all.len() >= 1
    &&& 0 <= pos <= tokens.len()
    &&& tokens.take(pos) == slot_list_tokens(all) + seq![TokenView::Assign]
    &&& forall|st: LetStatementView| #[trigger]
        begins_with(st, tokens.take(pos)) ==> st.slots =~= all
}

/// How the tokens from `start` on agree with a statement that begins with
/// the first `q` of them.
proof fn lemma_agrees(
    st: LetStatementView,
    tokens: Seq<TokenView>,
    done: Seq<SlotSpecView>,
    start: int,
    q: int,
)
    requires
        at_slot_start(tokens, done, start),
        start <= q <= tokens.len(),
        begins_with(st, tokens.take(q)),
    ensures
        st.slots.len() > done.len(),
        st.slots.take(done.len() as int) =~= done,
        ({
            let i = done.len() as int;
            let ts = slot_tokens(st.slots[i]);
            let end = start + ts.len();
            &&& statement_tokens(st).len() >= end + 2
            &&& start < q ==> tokens[start] == ts[0]
            &&& 1 < ts.len() && start + 1 < q ==> tokens[start + 1] == ts[1]
            &&& 2 < ts.len() && start + 2 < q ==> tokens[start + 2] == ts[2]
            &&& end < q ==> tokens[end] == (if i + 1 < st.slots.len() {
                TokenView::Comma
            } else {
                TokenView::Assign
            })
            &&& i + 1 == st.slots.len() ==> {
                &&& statement_tokens(st).len() == end + 2
                &&& end + 1 < q ==> tokens[end + 1] == TokenView::Ident(st.source)
            }
        }),
{
    let i = done.len() as int;
    lemma_begins_with_shorter(st, tokens, start, q);
    lemma_slot_at(st, i);
    assert(done.take(i) =~= done);
    assert(lead(st.slots, i) == lead(done, i));
}

/// Some statement begins with the tokens read so far.
proof fn lemma_viable(
    tokens: Seq<TokenView>,
    done: Seq<SlotSpecView>,
    start: int,
    cur: SlotSpecView,
    q: int,
)
    requires
        at_slot_start(tokens, done, start),
        reads(tokens, start, q, cur),
    ensures
        begins_statement(tokens.take(q)),
{
    let i = done.len() as int;
    let st = LetStatementView { slots: done.push(cur), source: Seq::empty() };
    let w = statement_tokens(st);
    lemma_slot_at(st, i);
    assert(st.slots.take(i) =~= done);
    assert(done.take(i) =~= done);
    assert(lead(st.slots, i) == lead(done, i));
    assert(w.take(start) == tokens.take(start));
    assert forall|j: int| 0 <= j < q implies tokens[j] == w[j] by {
        if j < start {
            assert(tokens.take(start)[j] == w.take(start)[j]);
        } else {
            assert(tokens[start + (j - start)] == slot_tokens(cur)[j - start]);
        }
    }
    assert(tokens.take(q) =~= w.subrange(0, q));
    assert(begins_with(st, tokens.take(q)));
}

/// Tokens that end within a slot or right behind one spell no statement.
proof fn lemma_ended_early(
    tokens: Seq<TokenView>,
    done: Seq<SlotSpecView>,
    start: int,
    cur: SlotSpecView,
)
    requires
        at_slot_start(tokens, done, start),
        reads(tokens, start, tokens.len() as int, cur),
    ensures
        forall|st: LetStatementView| !spells(tokens, st),
{
    let n = tokens.len() as int;
    assert forall|st: LetStatementView| !spells(tokens, st) by {
        if spells(tokens, st) {
            lemma_spelled_begins(st, tokens, n);
            lemma_agrees(st, tokens, done, start, n);
            if start < n {
                assert(tokens[start + 0] == slot_tokens(cur)[0]);
            }
        }
    }
}

/// Where a name is due, a token that is none spells no statement, unless it
/// is a marker that may still precede the name.
proof fn lemma_no_name(
    tokens: Seq<TokenView>,
    done: Seq<SlotSpecView>,
    start: int,
    cur: SlotSpecView,
    q: int,
)
    requires
        at_slot_start(tokens, done, start),
        reads(tokens, start, q, cur),
        q < tokens.len(),
        q - start == slot_tokens(cur).len() - 1,
        !(tokens[q] is Ident),
        !cur.mutable ==> tokens[q] != TokenView::Mut,
        !cur.mutable && !cur.is_rest ==> tokens[q] != TokenView::Star,
    ensures
        !begins_statement(tokens.take(q + 1)),
        forall|st: LetStatementView| !spells(tokens, st),
{
    let next = tokens.take(q + 1);
    assert forall|st: LetStatementView| !begins_with(st, next) by {
        if begins_with(st, next) {
            lemma_agrees(st, tokens, done, start, q + 1);
            if start < q {
                assert(tokens[start + 0] == slot_tokens(cur)[0]);
            }
            if start + 1 < q {
                assert(tokens[start + 1] == slot_tokens(cur)[1]);
            }
        }
    }
    lemma_dead_end(tokens, q + 1);
}

/// Behind a slot, a token that is neither `,` nor `=` spells no statement.
proof fn lemma_no_separator(
    tokens: Seq<TokenView>,
    done: Seq<SlotSpecView>,
    start: int,
    cur: SlotSpecView,
    q: int,
)
    requires
        at_slot_start(tokens, done, start),
        reads(tokens, start, q, cur),
        q < tokens.len(),
        q - start == slot_tokens(cur).len(),
        tokens[q] != TokenView::Comma,
        tokens[q] != TokenView::Assign,
    ensures
        !begins_statement(tokens.take(q + 1)),
        forall|st: LetStatementView| !spells(tokens, st),
{
    let next = tokens.take(q + 1);
    assert forall|st: LetStatementView| !begins_with(st, next) by {
        if begins_with(st, next) {
            lemma_same_slot(st, tokens, done, start, cur, q);
        }
    }
    lemma_dead_end(tokens, q + 1);
}

/// A statement that begins with the tokens up to and including the one
/// behind the slot `cur` has `cur` as its slot there, and goes on as that
/// token says.
proof fn lemma_same_slot(
    st: LetStatementView,
    tokens: Seq<TokenView>,
    done: Seq<SlotSpecView>,
    start: int,
    cur: SlotSpecView,
    q: int,
)
    requires
        at_slot_start(tokens, done, start),
        reads(tokens, start, q, cur),
        q < tokens.len(),
        q - start == slot_tokens(cur).len(),
        begins_with(st, tokens.take(q + 1)),
    ensures
        st.slots.len() > done.len(),
        st.slots.take(done.len() as int) =~= done,
        st.slots[done.len() as int] == cur,
        tokens[q] == (if done.len() + 1 < st.slots.len() {
            TokenView::Comma
        } else {
            TokenView::Assign
        }),
        done.len() + 1 == st.slots.len() ==> {
            &&& statement_tokens(st).len() == q + 2
            &&& statement_tokens(st)[q + 1] == TokenView::Ident(st.source)
        },
{
    let i = done.len() as int;
    lemma_agrees(st, tokens, done, start, q + 1);
    assert(tokens[start + 0] == slot_tokens(cur)[0]);
    if 1 < slot_tokens(cur).len() {
        assert(tokens[start + 1] == slot_tokens(cur)[1]);
    }
    if 2 < slot_tokens(cur).len() {
        assert(tokens[start + 2] == slot_tokens(cur)[2]);
    }
    assert(st.slots[i].name =~= cur.name);
    if i + 1 == st.slots.len() {
        lemma_slot_at(st, i);
        assert(done.take(i) =~= done);
        assert(lead(st.slots, i) == lead(done, i));
    }
}

/// The tokens so far, with the slot `cur` at their end, are the slots
/// `done` and `cur` written as a list.
proof fn lemma_list_read(
    tokens: Seq<TokenView>,
    done: Seq<SlotSpecView>,
    start: int,
    cur: SlotSpecView,
    q: int,
)
    requires
        at_slot_start(tokens, done, start),
        reads(tokens, start, q, cur),
        q - start == slot_tokens(cur).len(),
    ensures
        tokens.take(q) == slot_list_tokens(done.push(cur)),
{
    let i = done.len() as int;
    let now = done.push(cur);
    lemma_list_step(now, i);
    assert(now.take(i + 1) =~= now);
    assert(now.take(i) =~= done);
    assert(done.take(i) =~= done);
    assert(lead(now, i) == lead(done, i));
    assert forall|j: int| start <= j < q implies tokens[j] == slot_tokens(cur)[j - start] by {
        assert(tokens[start + (j - start)] == slot_tokens(cur)[j - start]);
    }
    assert(tokens.take(q) =~= tokens.take(start) + slot_tokens(cur));
}

/// Behind a slot and a comma the reader stands at the start of the next
/// slot.
proof fn lemma_step_comma(
    tokens: Seq<TokenView>,
    done: Seq<SlotSpecView>,
    start: int,
    cur: SlotSpecView,
    q: int,
)
    requires
        at_slot_start(tokens, done, start),
        reads(tokens, start, q, cur),
        q < tokens.len(),
        q - start == slot_tokens(cur).len(),
        tokens[q] == TokenView::Comma,
    ensures
        at_slot_start(tokens, done.push(cur), q + 1),
{
    let i = done.len() as int;
    let now = done.push(cur);
    lemma_list_read(tokens, done, start, cur, q);
    assert(now.take(i + 1) =~= now);
    assert(tokens.take(q + 1) =~= tokens.take(q) + seq![TokenView::Comma]);
    let next = tokens.take(q + 1);
    assert forall|st: LetStatementView| #[trigger]
        begins_with(st, next) implies st.slots.len() > now.len() && st.slots.take(
        now.len() as int,
    ) =~= now by {
        lemma_same_slot(st, tokens, done, start, cur, q);
        assert forall|j: int| 0 <= j < i implies st.slots[j] == done[j] by {
            assert(st.slots.take(i)[j] == st.slots[j]);
        }
    }
}

/// Behind a slot and `=` the slot list is complete.
proof fn lemma_step_assign(
    tokens: Seq<TokenView>,
    done: Seq<SlotSpecView>,
    start: int,
    cur: SlotSpecView,
    q: int,
)
    requires
        at_slot_start(tokens, done, start),
        reads(tokens, start, q, cur),
        q < tokens.len(),
        q - start == slot_tokens(cur).len(),
        tokens[q] == TokenView::Assign,
    ensures
        after_assign(tokens, done.push(cur), q + 1),
{
    let i = done.len() as int;
    let now = done.push(cur);
    lemma_list_read(tokens, done, start, cur, q);
    assert(tokens.take(q + 1) =~= tokens.take(q) + seq![TokenView::Assign]);
    let next = tokens.take(q + 1);
    assert forall|st: LetStatementView| #[trigger]
        begins_with(st, next) implies st.slots =~= now by {
        lemma_same_slot(st, tokens, done, start, cur, q);
        assert forall|j: int| 0 <= j < i implies st.slots[j] == done[j] by {
            assert(st.slots.take(i)[j] == st.slots[j]);
        }
    }
}

/// Behind `=`, some statement still begins with the tokens so far, and any
/// that does has the source name next and ends there.
proof fn lemma_source_due(tokens: Seq<TokenView>, all: Seq<SlotSpecView>, pos: int)
    requires
        after_assign(tokens, all, pos),
    ensures
        begins_statement(tokens.take(pos)),
        forall|st: LetStatementView| #[trigger]
            begins_with(st, tokens.take(pos)) ==> st.slots == all && statement_tokens(st).len()
                == pos + 1 && statement_tokens(st)[pos] == TokenView::Ident(st.source),
{
    let blank = LetStatementView { slots: all, source: Seq::empty() };
    assert(tokens.take(pos) =~= statement_tokens(blank).subrange(0, pos));
    assert(begins_with(blank, tokens.take(pos)));
    assert forall|st: LetStatementView| #[trigger]
        begins_with(st, tokens.take(pos)) implies st.slots == all && statement_tokens(st).len()
        == pos + 1 && statement_tokens(st)[pos] == TokenView::Ident(st.source) by {
        assert(st.slots =~= all);
        assert(tokens.take(pos).len() == pos);
    }
}

/// Tokens that end behind `=` spell no statement.
proof fn lemma_no_source_left(tokens: Seq<TokenView>, all: Seq<SlotSpecView>, pos: int)
    requires
        after_assign(tokens, all, pos),
        pos == tokens.len(),
    ensures
        forall|st: LetStatementView| !spells(tokens, st),
{
    lemma_source_due(tokens, all, pos);
    assert forall|st: LetStatementView| !spells(tokens, st) by {
        if spells(tokens, st) {
            lemma_spelled_begins(st, tokens, pos);
        }
    }
}

/// Behind `=`, a token that is no name spells no statement.
proof fn lemma_no_source(tokens: Seq<TokenView>, all: Seq<SlotSpecView>, pos: int)
    requires
        after_assign(tokens, all, pos),
        pos < tokens.len(),
        !(tokens[pos] is Ident),
    ensures
        !begins_statement(tokens.take(pos + 1)),
        forall|st: LetStatementView| !spells(tokens, st),
{
    lemma_source_due(tokens, all, pos);
    let next = tokens.take(pos + 1);
    assert forall|st: LetStatementView| !begins_with(st, next) by {
        if begins_with(st, next) {
            lemma_begins_with_shorter(st, tokens, pos, pos + 1);
        }
    }
    lemma_dead_end(tokens, pos + 1);
}

/// Behind `=` and the source name the statement is complete: the tokens up
/// to here spell it and no other, and no statement goes on.
proof fn lemma_statement_read(
    tokens: Seq<TokenView>,
    all: Seq<SlotSpecView>,
    pos: int,
    source: Seq<char>,
)
    requires
        after_assign(tokens, all, pos),
        pos < tokens.len(),
        tokens[pos] == TokenView::Ident(source),
    ensures
        begins_statement(tokens.take(pos + 1)),
        pos + 1 == tokens.len() ==> {
            &&& spells(tokens, LetStatementView { slots: all, source })
            &&& forall|other: LetStatementView|
                spells(tokens, other) ==> other == (LetStatementView { slots: all, source })
        },
        pos + 1 < tokens.len() ==> {
            &&& !begins_statement(tokens.take(pos + 2))
            &&& forall|st: LetStatementView| !spells(tokens, st)
        },
{
    let found = LetStatementView { slots: all, source };
    lemma_source_due(tokens, all, pos);
    assert(statement_tokens(found) =~= tokens.take(pos) + seq![tokens[pos]]);
    assert(tokens.take(pos + 1) =~= tokens.take(pos) + seq![tokens[pos]]);
    assert(tokens.take(pos + 1) =~= statement_tokens(found).subrange(0, pos + 1));
    assert(begins_with(found, tokens.take(pos + 1)));
    if pos + 1 == tokens.len() {
        assert(tokens.take(pos + 1) =~= tokens);
        assert forall|other: LetStatementView| spells(tokens, other) implies other == found by {
            lemma_spelled_begins(other, tokens, pos);
        }
    } else {
        let beyond = tokens.take(pos + 2);
        assert forall|st: LetStatementView| !begins_with(st, beyond) by {
            if begins_with(st, beyond) {
                lemma_begins_with_shorter(st, tokens, pos, pos + 2);
            }
        }
        lemma_dead_end(tokens, pos + 2);
    }
}

impl LetStatement {
    /// Reads a let-statement from its tokens: one or more slots with a comma
    /// between two, each an optional `*`, an optional `mut` and a name; `=`;
    /// the name of the source; and nothing more.
    ///
    /// Succeeds exactly when the tokens spell a statement, and returns that
    /// statement, which is the only one they spell. Otherwise reports how far
    /// the tokens still begin some statement.
    pub fn parse(tokens: &[Token]) -> (res: Result<LetStatement, SyntaxError>)
        ensures
            match res {
                Ok(st) => {
                    &&& spells(token_views(tokens@), st@)
                    &&& forall|other: LetStatementView|
                        spells(token_views(tokens@), other) ==> other == st@
                },
                Err(e) => {
                    &&& e.at <= tokens@.len()
                    &&& begins_statement(token_views(tokens@).take(e.at as int))
                    &&& e.at < tokens@.len() ==> !begins_statement(
                        token_views(tokens@).take(e.at + 1),
                    )
                    &&& forall|st: LetStatementView| !spells(token_views(tokens@), st)
                },
            },
    {
        let ghost t = token_views(tokens@);
        let n = tokens.len();
        let mut slots: Vec<SlotSpec> = Vec::new();
        let mut pos: usize = 0;
        proof {
            assert(t.take(0) =~= lead(slot_spec_views(slots@), 0));
            assert forall|st: LetStatementView| #[trigger]
                begins_with(st, t.take(0)) implies st.slots.take(0) =~= slot_spec_views(slots@) by {}
        }
        loop
            invariant_except_break
                at_slot_start(t, slot_spec_views(slots@), pos as int),
            invariant
                pos <= n,
                n == tokens@.len(),
                t == token_views(tokens@),
            ensures
                after_assign(t, slot_spec_views(slots@), pos as int),
            decreases n - pos,
        {
            let ghost start = pos as int;
            let ghost done = slot_spec_views(slots@);
            let is_rest = pos < n && matches!(tokens[pos], Token::Star);
            if is_rest {
                pos += 1;
            }
            let mutable = pos < n && matches!(tokens[pos], Token::Mut);
            if mutable {
                pos += 1;
            }
            let ghost partial = SlotSpecView { name: Seq::empty(), mutable, is_rest };
            assert(reads(t, start, pos as int, partial));
            if pos >= n {
                proof {
                    lemma_viable(t, done, start, partial, pos as int);
                    lemma_ended_early(t, done, start, partial);
                }
                return Err(SyntaxError { at: pos });
            }
            let name = match &tokens[pos] {
                Token::Ident(name) => name.clone(),
                _ => {
                    proof {
                        lemma_viable(t, done, start, partial, pos as int);
                        lemma_no_name(t, done, start, partial, pos as int);
                    }
                    return Err(SyntaxError { at: pos });
                },
            };
            pos += 1;
            let ghost cur = SlotSpecView { name: name@, mutable, is_rest };
            slots.push(SlotSpec { name, mutable, is_rest });
            assert(slot_spec_views(slots@) =~= done.push(cur));
            assert(reads(t, start, pos as int, cur));
            if pos >= n {
                proof {
                    lemma_viable(t, done, start, cur, pos as int);
                    lemma_ended_early(t, done, start, cur);
                }
                return Err(SyntaxError { at: pos });
            }
            let comma = matches!(tokens[pos], Token::Comma);
            let assign = matches!(tokens[pos], Token::Assign);
            if !comma && !assign {
                proof {
                    lemma_viable(t, done, start, cur, pos as int);
                    lemma_no_separator(t, done, start, cur, pos as int);
                }
                return Err(SyntaxError { at: pos });
            }
            proof {
                if comma {
                    lemma_step_comma(t, done, start, cur, pos as int);
                } else {
                    lemma_step_assign(t, done, start, cur, pos as int);
                }
            }
            pos += 1;
            if assign {
                break ;
            }
        }
        let ghost all = slot_spec_views(slots@);
        if pos >= n {
            proof {
                lemma_source_due(t, all, pos as int);
                lemma_no_source_left(t, all, pos as int);
            }
            return Err(SyntaxError { at: pos });
        }
        let source = match &tokens[pos] {
            Token::Ident(name) => name.clone(),
            _ => {
                proof {
                    lemma_source_due(t, all, pos as int);
                    lemma_no_source(t, all, pos as int);
                }
                return Err(SyntaxError { at: pos });
            },
        };
        proof {
            lemma_statement_read(t, all, pos as int, source@);
        }
        if pos + 1 != n {
            return Err(SyntaxError { at: pos + 1 });
        }
        Ok(LetStatement { slots, source })
    }
}

} // verus!
