//! What a flush achieves, stated against a model of the remote.
//!
//! The remote is modelled as a map from members to role lists that answers
//! each fetch with what it holds and performs each replacement it is asked
//! for. A list stands for the set of its roles.
//! Nothing here runs: these are the laws that `Coordinator::step` obeys.

use crate::coordinator::{CommandView, Delay, EventView, Phase, State};
use crate::pending::Entry;
use crate::keyed::{has_key, index_of, lemma_bind_distinct, lemma_rest_distinct};
use crate::roles::applied;
use vstd::prelude::*;

verus! {

/// Every step keeps the state well formed: no member has two entries, the
/// map is empty while the coordinator waits for an action or has stopped, the
/// cursor of a flush points at an entry, and an action is held only for a
/// member without an entry.
pub proof fn lemma_step_keeps_wf(state: State, event: EventView)
    requires
        state.wf(),
    ensures
        state.step(event).0.wf(),
{
    match (state.phase, event) {
        (Phase::Polling, EventView::Action { member, action }) => {
            if has_key(state.edits, member) {
                let current = state.edits[index_of(state.edits, member)].1;
                lemma_bind_distinct(
                    state.edits,
                    member,
                    applied(current, action.give, action.remove.to_set()),
                );
            }
        },
        (Phase::Seeding, EventView::Roles(current)) => {
            let (member, action) = state.held->0;
            lemma_bind_distinct(
                state.edits,
                member,
                applied(current, action.give, action.remove.to_set()),
            );
        },
        (Phase::Sleeping, EventView::Slept) => {
            lemma_rest_distinct(state.edits, state.cursor as int);
        },
        _ => {},
    }
}

/// For each member, the roles that the remote holds.
pub type Remote = Map<Seq<char>, Seq<Seq<char>>>;

/// The roles that `member` holds on the remote: none where the remote does
/// not know the member.
pub open spec fn held_by(remote: Remote, member: Seq<char>) -> Seq<Seq<char>> {
    if remote.dom().contains(member) {
        remote[member]
    } else {
        Seq::empty()
    }
}

/// What a flush leaves behind.
pub struct Flushed {
    /// The coordinator after the flush.
    pub state: State,
    /// The remote after the flush.
    pub remote: Remote,
    /// The members whose roles were replaced, in the order of the calls.
    pub replaced: Seq<Seq<char>>,
}

/// The rest of a flush from a state that waits for the roles of the member at
/// its cursor, with no rate limit, no failure and no new action.
pub open spec fn flush(state: State, remote: Remote) -> Flushed
    decreases state.edits.len() - state.cursor,
{
    if state.phase is Checking && state.cursor < state.edits.len() {
        let member = state.edits[state.cursor as int].0;
        let (checked, command) = state.step(EventView::Roles(held_by(remote, member)));
        match command {
            CommandView::Replace(target, roles) => {
                let rest = flush(checked.step(EventView::Edited).0, remote.insert(target, roles));
                Flushed { replaced: seq![target] + rest.replaced, ..rest }
            },
            _ => flush(checked, remote),
        }
    } else {
        Flushed { state, remote, replaced: Seq::empty() }
    }
}

/// A whole flush: the mailbox is found empty, then every pending member is
/// reconciled.
pub open spec fn settle(state: State, remote: Remote) -> Flushed {
    flush(state.step(EventView::Empty).0, remote)
}

/// The entries of `edits` from `from` on.
pub open spec fn rest(edits: Seq<Entry>, from: nat) -> Seq<Entry> {
    edits.subrange(from as int, edits.len() as int)
}

/// Whether the remote holds, for every entry from the cursor on, exactly the
/// roles wanted.
pub open spec fn settled(state: State, remote: Remote) -> bool {
    forall|i: int|
        state.cursor <= i < state.edits.len() ==> held_by(
            remote,
            (#[trigger] state.edits[i]).0,
        ).to_set() == state.edits[i].1.to_set()
}

proof fn lemma_rest_touched(edits: Seq<Entry>, from: nat, member: Seq<char>)
    requires
        from < edits.len(),
    ensures
        has_key(rest(edits, from), member) <==> (edits[from as int].0 == member || has_key(
            rest(edits, from + 1),
            member,
        )),
{
    let here = rest(edits, from);
    let after = rest(edits, from + 1);
    if has_key(here, member) {
        let i = choose|i: int| 0 <= i < here.len() && (#[trigger] here[i]).0 == member;
        if i > 0 {
            assert(after[i - 1].0 == member);
        }
    }
    if has_key(after, member) {
        let i = choose|i: int| 0 <= i < after.len() && (#[trigger] after[i]).0 == member;
        assert(here[i + 1].0 == member);
    }
    if edits[from as int].0 == member {
        assert(here[0].0 == member);
    }
}

/// Convergence: after a flush each pending member holds exactly the roles
/// wanted for it, members without a pending edit hold what they held, and a
/// replacement was asked only for pending members.
pub proof fn lemma_flush_converges(state: State, remote: Remote)
    requires
        state.wf(),
        state.phase is Checking,
    ensures
        forall|i: int|
            state.cursor <= i < state.edits.len() ==> held_by(
                flush(state, remote).remote,
                (#[trigger] state.edits[i]).0,
            ).to_set() == state.edits[i].1.to_set(),
        forall|member: Seq<char>|
            !has_key(rest(state.edits, state.cursor), member) ==> #[trigger] held_by(
                flush(state, remote).remote,
                member,
            ) == held_by(remote, member),
        forall|member: Seq<char>| #[trigger]
            flush(state, remote).replaced.contains(member) ==> has_key(
                rest(state.edits, state.cursor),
                member,
            ),
    decreases state.edits.len() - state.cursor,
{
    let at = state.cursor as int;
    let member = state.edits[at].0;
    let wanted = state.edits[at].1;
    let (checked, command) = state.step(EventView::Roles(held_by(remote, member)));
    let (next, after) = if held_by(remote, member).to_set() == wanted.to_set() {
        (checked, remote)
    } else {
        (checked.step(EventView::Edited).0, remote.insert(member, wanted))
    };
    let done = flush(state, remote);
    let tail = flush(next, after);
    assert(done.remote == tail.remote);
    assert(held_by(after, member).to_set() == wanted.to_set());
    assert forall|other: Seq<char>| has_key(rest(state.edits, state.cursor), other) <==> (member
        == other || has_key(rest(state.edits, state.cursor + 1), other)) by {
        lemma_rest_touched(state.edits, state.cursor, other);
    }
    assert(!has_key(rest(state.edits, state.cursor + 1), member)) by {
        let after_here = rest(state.edits, state.cursor + 1);
        if has_key(after_here, member) {
            let i = choose|i: int| 0 <= i < after_here.len() && (#[trigger] after_here[i]).0 == member;
            assert(state.edits[at].0 != state.edits[at + 1 + i].0);
        }
    }
    if at + 1 < state.edits.len() {
        assert(next.edits == state.edits);
        assert(next.cursor == state.cursor + 1);
        lemma_flush_converges(next, after);
        assert(held_by(tail.remote, member) == held_by(after, member));
        assert forall|i: int| state.cursor <= i < state.edits.len() implies held_by(
            done.remote,
            (#[trigger] state.edits[i]).0,
        ).to_set() == state.edits[i].1.to_set() by {
            if i > at {
                assert(held_by(tail.remote, next.edits[i].0).to_set() == next.edits[i].1.to_set());
            }
        }
        assert forall|other: Seq<char>|
            !has_key(rest(state.edits, state.cursor), other) implies #[trigger] held_by(
            done.remote,
            other,
        ) == held_by(remote, other) by {
            assert(held_by(tail.remote, other) == held_by(after, other));
        }
    } else {
        assert(tail.remote == after);
        assert(tail.replaced =~= Seq::<Seq<char>>::empty());
    }
    assert forall|other: Seq<char>| #[trigger] done.replaced.contains(other) implies has_key(
        rest(state.edits, state.cursor),
        other,
    ) by {
        if other != member {
            assert(tail.replaced.contains(other)) by {
                let i = choose|i: int| 0 <= i < done.replaced.len() && done.replaced[i] == other;
                if held_by(remote, member).to_set() != wanted.to_set() {
                    assert(done.replaced == seq![member] + tail.replaced);
                    assert(tail.replaced[i - 1] == other);
                }
            }
        }
    }
}

/// A flush ends with nothing pending: the map is empty, and the coordinator
/// waits for the next action without another call to the remote.
pub proof fn lemma_flush_ends_idle(state: State, remote: Remote)
    requires
        state.wf(),
        state.phase is Checking,
    ensures
        flush(state, remote).state.phase is Idle,
        flush(state, remote).state.edits.len() == 0,
        flush(state, remote).state.awaited() == CommandView::Receive,
    decreases state.edits.len() - state.cursor,
{
    let member = state.edits[state.cursor as int].0;
    let (checked, command) = state.step(EventView::Roles(held_by(remote, member)));
    let (next, after) = if command is Replace {
        (checked.step(EventView::Edited).0, remote.insert(member, state.edits[state.cursor as int].1))
    } else {
        (checked, remote)
    };
    assert(flush(state, remote).state == flush(next, after).state);
    if state.cursor + 1 < state.edits.len() {
        assert(next.edits == state.edits);
        assert(next.cursor == state.cursor + 1);
        lemma_flush_ends_idle(next, after);
    } else {
        assert(next.phase is Idle);
        assert(flush(next, after).state == next);
    }
}

/// No-op: where the remote already holds what is wanted, a flush asks for no
/// replacement and leaves the remote as it is.
pub proof fn lemma_flush_of_settled(state: State, remote: Remote)
    requires
        state.wf(),
        state.phase is Checking,
        settled(state, remote),
    ensures
        flush(state, remote).replaced == Seq::<Seq<char>>::empty(),
        flush(state, remote).remote == remote,
    decreases state.edits.len() - state.cursor,
{
    let at = state.cursor as int;
    let member = state.edits[at].0;
    assert(held_by(remote, state.edits[at].0).to_set() == state.edits[at].1.to_set());
    let next = state.step(EventView::Roles(held_by(remote, member))).0;
    assert(flush(state, remote) == flush(next, remote));
    if at + 1 < state.edits.len() {
        assert(next.edits == state.edits);
        assert forall|i: int| next.cursor <= i < next.edits.len() implies held_by(
            remote,
            (#[trigger] next.edits[i]).0,
        ).to_set() == next.edits[i].1.to_set() by {
            assert(held_by(remote, state.edits[i].0).to_set() == state.edits[i].1.to_set());
        }
        lemma_flush_of_settled(next, remote);
    } else {
        assert(flush(next, remote).remote == remote);
    }
}

/// Idempotence: a flush of the same pending map against the remote that a
/// first flush left behind performs no remote replacement.
pub proof fn lemma_second_flush_is_idle(state: State, remote: Remote)
    requires
        state.wf(),
        state.phase is Checking,
    ensures
        flush(state, flush(state, remote).remote).replaced == Seq::<Seq<char>>::empty(),
        flush(state, flush(state, remote).remote).remote == flush(state, remote).remote,
{
    lemma_flush_converges(state, remote);
    lemma_flush_of_settled(state, flush(state, remote).remote);
}

/// Convergence of a whole flush: once the mailbox is found empty, every
/// pending member ends with the roles last wanted for it and nothing stays
/// pending, and settling the same state again replaces nothing.
pub proof fn lemma_settle_converges(state: State, remote: Remote)
    requires
        state.wf(),
        state.phase is Polling,
    ensures
        forall|i: int|
            0 <= i < state.edits.len() ==> held_by(
                settle(state, remote).remote,
                (#[trigger] state.edits[i]).0,
            ).to_set() == state.edits[i].1.to_set(),
        settle(state, remote).state.phase is Idle,
        settle(state, remote).state.edits.len() == 0,
        settle(state, settle(state, remote).remote).replaced == Seq::<Seq<char>>::empty(),
        settle(state, settle(state, remote).remote).remote == settle(state, remote).remote,
{
    let begun = state.step(EventView::Empty).0;
    if state.edits.len() > 0 {
        assert(begun.edits == state.edits);
        lemma_flush_converges(begun, remote);
        lemma_flush_ends_idle(begun, remote);
        lemma_second_flush_is_idle(begun, remote);
    }
}

/// Resumption after a rate limit: once the sleep is over, the members that
/// were reconciled before the limited one have left the map, the limited
/// member and those after it keep their entries and their order, and the
/// flush that follows replaces the roles of none of the members that left.
pub proof fn lemma_resume_skips_confirmed(state: State, delay: Delay, remote: Remote)
    requires
        state.wf(),
        state.phase is Editing,
    ensures
        ({
            let (asleep, pause) = state.step(EventView::RetryAfter(delay));
            let (resumed, poll) = asleep.step(EventView::Slept);
            &&& pause == CommandView::Sleep(delay)
            &&& poll == CommandView::TryReceive
            &&& resumed.wf()
            &&& resumed.phase is Polling
            &&& resumed.edits == rest(state.edits, state.cursor)
            &&& forall|i: int|
                0 <= i < state.cursor ==> !has_key(resumed.edits, (#[trigger] state.edits[i]).0)
            &&& forall|i: int|
                0 <= i < state.cursor ==> !settle(resumed, remote).replaced.contains(
                    (#[trigger] state.edits[i]).0,
                )
        }),
{
    let asleep = state.step(EventView::RetryAfter(delay)).0;
    let resumed = asleep.step(EventView::Slept).0;
    let kept = rest(state.edits, state.cursor);
    assert(resumed.edits == kept);
    lemma_rest_distinct(state.edits, state.cursor as int);
    let begun = resumed.step(EventView::Empty).0;
    assert(begun.edits == kept);
    assert(rest(kept, 0) =~= kept);
    lemma_flush_converges(begun, remote);
}

} // verus!
