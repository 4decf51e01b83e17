//! A whole run of the coordinator, stated against a model of the remote.
//!
//! Actions are queued for one server and no more arrive. The coordinator
//! merges them, then flushes; the remote answers every fetch with what it
//! holds and performs every replacement, at once or after it has set a rate
//! limit. At the end each member that an action touched holds the roles that
//! its actions ask for, applied in the order in which they came.
//! Nothing here runs: these are laws that `Coordinator::step` obeys.

use crate::convergence::{held_by, lemma_step_keeps_wf, rest, Flushed, Remote};
use crate::coordinator::{CommandView, Delay, EventView, State};
use crate::keyed::{
    bind, distinct_keys, has_key, index_of, lemma_bind_distinct, lemma_bind_lookup,
    lemma_rest_distinct,
};
use crate::pending::Entry;
use crate::roles::{applied, lemma_applied_set, merged, ActionView};
use vstd::prelude::*;

verus! {

/// A queued request: a member and the action asked for it.
pub type Queued = (Seq<char>, ActionView);

/// Whether an action is queued for `member`.
pub open spec fn queued_for(queue: Seq<Queued>, member: Seq<char>) -> bool {
    exists|i: int| 0 <= i < queue.len() && (#[trigger] queue[i]).0 == member
}

/// The roles that a member who holds `held` should hold once the actions
/// queued for it are applied in the order in which they came: each adds what
/// it gives and then takes away what it removes.
pub open spec fn desired(held: Set<Seq<char>>, queue: Seq<Queued>, member: Seq<char>) -> Set<
    Seq<char>,
>
    decreases queue.len(),
{
    if queue.len() == 0 {
        held
    } else if queue[0].0 == member {
        desired(
            merged(held, queue[0].1.give.to_set(), queue[0].1.remove.to_set()),
            queue.drop_first(),
            member,
        )
    } else {
        desired(held, queue.drop_first(), member)
    }
}

/// The pending edits once an action is merged: it is applied to the
/// member's entry, or, at the member's first touch, to what the remote holds.
pub open spec fn touch(edits: Seq<Entry>, remote: Remote, member: Seq<char>, action: ActionView) -> Seq<
    Entry,
> {
    let current = if has_key(edits, member) {
        edits[index_of(edits, member)].1
    } else {
        held_by(remote, member)
    };
    bind(edits, member, applied(current, action.give, action.remove.to_set()))
}

/// The pending edits once the whole queue is merged.
pub open spec fn touch_all(edits: Seq<Entry>, remote: Remote, queue: Seq<Queued>) -> Seq<Entry>
    decreases queue.len(),
{
    if queue.len() == 0 {
        edits
    } else {
        touch_all(touch(edits, remote, queue[0].0, queue[0].1), remote, queue.drop_first())
    }
}

/// The coordinator takes the queue from its mailbox, one action after
/// another, and asks the remote for the roles of each member at its first
/// touch.
pub open spec fn merge(state: State, queue: Seq<Queued>, remote: Remote) -> State
    decreases queue.len(),
{
    if queue.len() == 0 {
        state
    } else {
        let (taken, command) = state.step(
            EventView::Action { member: queue[0].0, action: queue[0].1 },
        );
        let seeded = match command {
            CommandView::Fetch(member) => taken.step(EventView::Roles(held_by(remote, member))).0,
            _ => taken,
        };
        merge(seeded, queue.drop_first(), remote)
    }
}

/// A flush in which the remote answers the replacements asked of it by
/// `answers`, in turn: `true` for done, `false` for a rate limit, and done
/// for all once the answers have run out. After a rate limit the coordinator
/// sleeps, finds its mailbox empty, and flushes again what is left.
pub open spec fn flush_with(state: State, remote: Remote, answers: Seq<bool>) -> Flushed
    decreases answers.len(), state.edits.len() - state.cursor,
{
    if state.phase is Checking && state.cursor < state.edits.len() {
        let member = state.edits[state.cursor as int].0;
        let (checked, command) = state.step(EventView::Roles(held_by(remote, member)));
        match command {
            CommandView::Replace(target, roles) => {
                if answers.len() > 0 && !answers[0] {
                    let asleep = checked.step(EventView::RetryAfter(Delay { secs: 0, nanos: 0 })).0;
                    let again = asleep.step(EventView::Slept).0.step(EventView::Empty).0;
                    flush_with(again, remote, answers.drop_first())
                } else {
                    let left = if answers.len() > 0 {
                        answers.drop_first()
                    } else {
                        answers
                    };
                    let rest = flush_with(
                        checked.step(EventView::Edited).0,
                        remote.insert(target, roles),
                        left,
                    );
                    Flushed { replaced: seq![target] + rest.replaced, ..rest }
                }
            },
            _ => flush_with(checked, remote, answers),
        }
    } else {
        Flushed { state, remote, replaced: Seq::empty() }
    }
}

/// A whole run: the queue is merged, the mailbox is found empty, and the
/// pending edits are flushed.
pub open spec fn run(queue: Seq<Queued>, remote: Remote, answers: Seq<bool>) -> Flushed {
    flush_with(merge(State::initial(), queue, remote).step(EventView::Empty).0, remote, answers)
}

/// Merging the queue makes the pending edits that `touch_all` describes.
pub proof fn lemma_merge(state: State, queue: Seq<Queued>, remote: Remote)
    requires
        state.wf(),
        state.phase is Idle || state.phase is Polling,
    ensures
        merge(state, queue, remote).wf(),
        merge(state, queue, remote).edits == touch_all(state.edits, remote, queue),
        queue.len() > 0 ==> merge(state, queue, remote).phase is Polling,
        queue.len() == 0 ==> merge(state, queue, remote) == state,
    decreases queue.len(),
{
    if queue.len() > 0 {
        let event = EventView::Action { member: queue[0].0, action: queue[0].1 };
        let (taken, command) = state.step(event);
        lemma_step_keeps_wf(state, event);
        let seeded = match command {
            CommandView::Fetch(member) => taken.step(EventView::Roles(held_by(remote, member))).0,
            _ => taken,
        };
        if !has_key(state.edits, queue[0].0) {
            lemma_step_keeps_wf(taken, EventView::Roles(held_by(remote, queue[0].0)));
        }
        assert(seeded.edits == touch(state.edits, remote, queue[0].0, queue[0].1));
        lemma_merge(seeded, queue.drop_first(), remote);
    }
}

/// What `member` holds at its first touch: its entry where it has one, else
/// what the remote holds.
pub open spec fn held_at_start(edits: Seq<Entry>, remote: Remote, member: Seq<char>) -> Set<
    Seq<char>,
> {
    if has_key(edits, member) {
        edits[index_of(edits, member)].1.to_set()
    } else {
        held_by(remote, member).to_set()
    }
}

/// Once the queue is merged, exactly the members that had an entry or were
/// named in the queue have one, and each entry stands for the roles that the
/// member's actions ask for.
pub proof fn lemma_touch_all(edits: Seq<Entry>, remote: Remote, queue: Seq<Queued>, member: Seq<char>)
    requires
        distinct_keys(edits),
    ensures
        distinct_keys(touch_all(edits, remote, queue)),
        has_key(touch_all(edits, remote, queue), member) <==> (has_key(edits, member) || queued_for(
            queue,
            member,
        )),
        has_key(touch_all(edits, remote, queue), member) ==> touch_all(edits, remote, queue)[index_of(
            touch_all(edits, remote, queue),
            member,
        )].1.to_set() == desired(held_at_start(edits, remote, member), queue, member),
    decreases queue.len(),
{
    if queue.len() > 0 {
        let (first, action) = queue[0];
        let later = queue.drop_first();
        let current = if has_key(edits, first) {
            edits[index_of(edits, first)].1
        } else {
            held_by(remote, first)
        };
        let wanted = applied(current, action.give, action.remove.to_set());
        let next = touch(edits, remote, first, action);
        lemma_bind_distinct(edits, first, wanted);
        lemma_bind_lookup(edits, first, wanted, member);
        lemma_applied_set(current, action.give, action.remove.to_set());
        lemma_touch_all(next, remote, later, member);
        assert(queued_for(queue, member) <==> (first == member || queued_for(later, member))) by {
            if queued_for(queue, member) {
                let i = choose|i: int| 0 <= i < queue.len() && (#[trigger] queue[i]).0 == member;
                if i > 0 {
                    assert(later[i - 1].0 == member);
                }
            }
            if queued_for(later, member) {
                let i = choose|i: int| 0 <= i < later.len() && (#[trigger] later[i]).0 == member;
                assert(queue[i + 1].0 == member);
            }
            if first == member {
                assert(queue[0].0 == member);
            }
        }
    }
}

/// Convergence of a flush under rate limits: however the remote spreads its
/// rate limits over the replacements, each pending member ends with the
/// roles wanted for it, members without a pending edit hold what they held,
/// and nothing stays pending.
pub proof fn lemma_flush_with_converges(state: State, remote: Remote, answers: Seq<bool>)
    requires
        state.wf(),
        state.phase is Checking,
    ensures
        forall|i: int|
            state.cursor <= i < state.edits.len() ==> held_by(
                flush_with(state, remote, answers).remote,
                (#[trigger] state.edits[i]).0,
            ).to_set() == state.edits[i].1.to_set(),
        forall|member: Seq<char>|
            !has_key(rest(state.edits, state.cursor), member) ==> #[trigger] held_by(
                flush_with(state, remote, answers).remote,
                member,
            ) == held_by(remote, member),
        flush_with(state, remote, answers).state.phase is Idle,
        flush_with(state, remote, answers).state.edits.len() == 0,
    decreases answers.len(), state.edits.len() - state.cursor,
{
    let at = state.cursor as int;
    let member = state.edits[at].0;
    let wanted = state.edits[at].1;
    let done = flush_with(state, remote, answers);
    let (checked, command) = state.step(EventView::Roles(held_by(remote, member)));
    let kept = rest(state.edits, state.cursor);
    lemma_rest_distinct(state.edits, at);
    lemma_rest_distinct(state.edits, at + 1);
    assert forall|other: Seq<char>| has_key(kept, other) <==> (member == other || has_key(
        rest(state.edits, state.cursor + 1),
        other,
    )) by {
        let after = rest(state.edits, state.cursor + 1);
        if has_key(kept, other) {
            let i = index_of(kept, other);
            if i > 0 {
                assert(after[i - 1].0 == other);
            }
        }
        if has_key(after, other) {
            let i = index_of(after, other);
            assert(kept[i + 1].0 == other);
        }
        if member == other {
            assert(kept[0].0 == other);
        }
    }
    assert(!has_key(rest(state.edits, state.cursor + 1), member)) by {
        let after = rest(state.edits, state.cursor + 1);
        if has_key(after, member) {
            let i = index_of(after, member);
            assert(state.edits[at].0 != state.edits[at + 1 + i].0);
        }
    }
    if held_by(remote, member).to_set() != wanted.to_set() && answers.len() > 0 && !answers[0] {
        let asleep = checked.step(EventView::RetryAfter(Delay { secs: 0, nanos: 0 })).0;
        let again = asleep.step(EventView::Slept).0.step(EventView::Empty).0;
        assert(again.edits == kept);
        assert(again.cursor == 0);
        assert(again.phase is Checking);
        assert(rest(kept, 0) =~= kept);
        lemma_flush_with_converges(again, remote, answers.drop_first());
        assert(done == flush_with(again, remote, answers.drop_first()));
        assert forall|i: int| state.cursor <= i < state.edits.len() implies held_by(
            done.remote,
            (#[trigger] state.edits[i]).0,
        ).to_set() == state.edits[i].1.to_set() by {
            assert(again.edits[i - at] == state.edits[i]);
        }
    } else {
        let replace = held_by(remote, member).to_set() != wanted.to_set();
        let (next, after, left) = if replace {
            (
                checked.step(EventView::Edited).0,
                remote.insert(member, wanted),
                if answers.len() > 0 {
                    answers.drop_first()
                } else {
                    answers
                },
            )
        } else {
            (checked, remote, answers)
        };
        let tail = flush_with(next, after, left);
        assert(done.remote == tail.remote);
        assert(done.state == tail.state);
        assert(held_by(after, member).to_set() == wanted.to_set());
        if at + 1 < state.edits.len() {
            assert(next.edits == state.edits);
            assert(next.cursor == state.cursor + 1);
            lemma_flush_with_converges(next, after, left);
            assert(held_by(tail.remote, member) == held_by(after, member));
            assert forall|i: int| state.cursor <= i < state.edits.len() implies held_by(
                done.remote,
                (#[trigger] state.edits[i]).0,
            ).to_set() == state.edits[i].1.to_set() by {
                if i > at {
                    assert(held_by(tail.remote, next.edits[i].0).to_set() == next.edits[i].1.to_set());
                }
            }
            assert forall|other: Seq<char>| !has_key(kept, other) implies #[trigger] held_by(
                done.remote,
                other,
            ) == held_by(remote, other) by {
                assert(held_by(tail.remote, other) == held_by(after, other));
            }
        } else {
            assert(next.phase is Idle);
            assert(tail.remote == after);
            assert(tail.state == next);
        }
    }
}

/// Convergence of a whole run: once the queued actions are merged and
/// flushed, with no further arrival and whatever rate limits the remote
/// sets, each member that an action touched holds the roles that its actions
/// ask for, applied in turn to what it held at first; every other member
/// holds what it held; and nothing stays pending.
pub proof fn lemma_run_converges(
    queue: Seq<Queued>,
    remote: Remote,
    answers: Seq<bool>,
    member: Seq<char>,
)
    ensures
        queued_for(queue, member) ==> held_by(run(queue, remote, answers).remote, member).to_set()
            == desired(held_by(remote, member).to_set(), queue, member),
        !queued_for(queue, member) ==> held_by(run(queue, remote, answers).remote, member)
            == held_by(remote, member),
        run(queue, remote, answers).state.edits.len() == 0,
        run(queue, remote, answers).state.phase is Idle,
{
    let start = State::initial();
    let none = Seq::<Entry>::empty();
    let merged_state = merge(start, queue, remote);
    lemma_merge(start, queue, remote);
    lemma_touch_all(none, remote, queue, member);
    let pending = touch_all(none, remote, queue);
    assert(merged_state.edits == pending);
    assert(!has_key(none, member));
    let begun = merged_state.step(EventView::Empty).0;
    if queue.len() > 0 && pending.len() > 0 {
        assert(begun.edits == pending);
        assert(begun.phase is Checking);
        assert(rest(pending, 0) =~= pending);
        lemma_flush_with_converges(begun, remote, answers);
        if queued_for(queue, member) {
            let i = index_of(pending, member);
            assert(pending[i].0 == member);
        }
    } else if queue.len() > 0 {
        assert(begun.phase is Idle);
        assert(!has_key(pending, member));
    } else {
        assert(begun == start);
    }
}

} // verus!
