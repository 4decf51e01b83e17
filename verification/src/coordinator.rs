//! The role-edit coordinator of one server.
//!
//! The coordinator owns the pending edit map. It is driven from outside: the
//! caller performs what a `Command` asks (wait on the mailbox, fetch a member,
//! replace a member's roles, sleep) and hands the outcome back as an `Event`.
//! Between two commands nothing blocks, so every decision is in `step`.

use crate::keyed::{bind, distinct_keys, has_key, index_of, lemma_index_of};
use crate::pending::{
    clear, count, drop_front, entries_of, entry_at, find, new_map, put, Entry,
};
use crate::roles::{applied, same_roles, ActionView, RoleAction};
use crate::text::{copy_texts, texts};
use indexmap::IndexMap;
use vstd::prelude::*;

verus! {

/// How long a rate limit asks the caller to wait.
#[derive(Clone, Copy, Debug, PartialEq, Eq, Structural)]
pub struct Delay {
    pub secs: u64,
    pub nanos: u32,
}

/// What the coordinator is waiting for.
#[derive(Clone, Copy, Debug, PartialEq, Eq, Structural)]
pub enum Phase {
    /// Nothing is pending; the next action is awaited for as long as it takes.
    Idle,
    /// The mailbox is being emptied without blocking.
    Polling,
    /// A member was touched for the first time and its roles were asked for.
    Seeding,
    /// A flush asked for the current roles of the member at the cursor.
    Checking,
    /// A flush asked the remote to replace the roles of the member at the
    /// cursor.
    Editing,
    /// The remote set a rate limit on the member at the cursor.
    Sleeping,
    /// The mailbox is closed.
    Stopped,
}

/// What the outside reports to the coordinator.
pub enum Event {
    /// The mailbox delivered an action for a member.
    Action { member: String, action: RoleAction },
    /// The mailbox had nothing waiting.
    Empty,
    /// The mailbox is closed and empty.
    Closed,
    /// The roles that the member asked about holds now.
    Roles(Vec<String>),
    /// The member could not be fetched.
    FetchFailed,
    /// The remote replaced the member's roles.
    Edited,
    /// The remote refused the replacement for now.
    RetryAfter(Delay),
    /// The remote refused the replacement for another reason.
    EditFailed,
    /// The sleep is over.
    Slept,
}

/// What the coordinator asks of the outside.
pub enum Command {
    /// Wait for the next action.
    Receive,
    /// Take the next action if one is waiting.
    TryReceive,
    /// Fetch the member's current roles.
    Fetch(String),
    /// Replace the member's roles by the list.
    Replace(String, Vec<String>),
    /// Sleep for the delay.
    Sleep(Delay),
    /// End the actor.
    Stop,
}

/// An event over texts.
pub enum EventView {
    Action { member: Seq<char>, action: ActionView },
    Empty,
    Closed,
    Roles(Seq<Seq<char>>),
    FetchFailed,
    Edited,
    RetryAfter(Delay),
    EditFailed,
    Slept,
}

/// A command over texts.
pub enum CommandView {
    Receive,
    TryReceive,
    Fetch(Seq<char>),
    Replace(Seq<char>, Seq<Seq<char>>),
    Sleep(Delay),
    Stop,
}

impl View for Event {
    type V = EventView;

    open spec fn view(&self) -> EventView {
        match *self {
            Event::Action { member, action } => EventView::Action { member: member@, action: action@ },
            Event::Empty => EventView::Empty,
            Event::Closed => EventView::Closed,
            Event::Roles(roles) => EventView::Roles(texts(roles@)),
            Event::FetchFailed => EventView::FetchFailed,
            Event::Edited => EventView::Edited,
            Event::RetryAfter(delay) => EventView::RetryAfter(delay),
            Event::EditFailed => EventView::EditFailed,
            Event::Slept => EventView::Slept,
        }
    }
}

impl View for Command {
    type V = CommandView;

    open spec fn view(&self) -> CommandView {
        match *self {
            Command::Receive => CommandView::Receive,
            Command::TryReceive => CommandView::TryReceive,
            Command::Fetch(member) => CommandView::Fetch(member@),
            Command::Replace(member, roles) => CommandView::Replace(member@, texts(roles@)),
            Command::Sleep(delay) => CommandView::Sleep(delay),
            Command::Stop => CommandView::Stop,
        }
    }
}

/// The coordinator as the laws speak of it.
pub struct State {
    /// The pending edit map, first touched first.
    pub edits: Seq<Entry>,
    pub phase: Phase,
    /// During a flush, the index of the member being reconciled.
    pub cursor: nat,
    /// While seeding, the action that waits for its member's roles.
    pub held: Option<(Seq<char>, ActionView)>,
    /// While sleeping, the delay that was asked for.
    pub delay: Delay,
}

impl State {
    /// What every state that `step` can reach satisfies.
    pub open spec fn wf(self) -> bool {
        &&& distinct_keys(self.edits)
        &&& (self.phase is Idle || self.phase is Stopped) ==> self.edits.len() == 0
        &&& (self.phase is Checking || self.phase is Editing || self.phase is Sleeping)
            ==> self.cursor < self.edits.len()
        &&& self.phase is Seeding ==> self.held is Some && !has_key(self.edits, self.held_member())
    }

    /// The member whose action is held.
    pub open spec fn held_member(self) -> Seq<char> {
        match self.held {
            Some(pair) => pair.0,
            None => Seq::empty(),
        }
    }

    /// The state of a coordinator that has received nothing yet.
    pub open spec fn initial() -> State {
        State {
            edits: Seq::empty(),
            phase: Phase::Idle,
            cursor: 0,
            held: None,
            delay: Delay { secs: 0, nanos: 0 },
        }
    }

    /// The command that the state is waiting on.
    pub open spec fn awaited(self) -> CommandView {
        match self.phase {
            Phase::Idle => CommandView::Receive,
            Phase::Polling => CommandView::TryReceive,
            Phase::Seeding => CommandView::Fetch(self.held_member()),
            Phase::Checking => CommandView::Fetch(self.edits[self.cursor as int].0),
            Phase::Editing => CommandView::Replace(
                self.edits[self.cursor as int].0,
                self.edits[self.cursor as int].1,
            ),
            Phase::Sleeping => CommandView::Sleep(self.delay),
            Phase::Stopped => CommandView::Stop,
        }
    }

    /// A flush moves to the entry at `cursor`, or ends where there is none:
    /// then the map is emptied and the next action is awaited.
    pub open spec fn flush_at(self, cursor: nat) -> (State, CommandView) {
        if cursor < self.edits.len() {
            (
                State { phase: Phase::Checking, cursor, ..self },
                CommandView::Fetch(self.edits[cursor as int].0),
            )
        } else {
            (
                State { edits: Seq::empty(), phase: Phase::Idle, cursor: 0, ..self },
                CommandView::Receive,
            )
        }
    }

    /// An action arrives: it is merged into its member's entry, or waits
    /// until the member's roles are known.
    pub open spec fn receive(self, member: Seq<char>, action: ActionView) -> (State, CommandView) {
        if has_key(self.edits, member) {
            let current = self.edits[index_of(self.edits, member)].1;
            let wanted = applied(current, action.give, action.remove.to_set());
            (
                State {
                    edits: bind(self.edits, member, wanted),
                    phase: Phase::Polling,
                    held: None,
                    ..self
                },
                CommandView::TryReceive,
            )
        } else {
            (
                State { phase: Phase::Seeding, held: Some((member, action)), ..self },
                CommandView::Fetch(member),
            )
        }
    }

    /// The state and the command that follow `event`. An event that the phase
    /// does not wait for changes nothing and has the awaited command repeated.
    pub open spec fn step(self, event: EventView) -> (State, CommandView) {
        match (self.phase, event) {
            (Phase::Idle, EventView::Action { member, action }) => self.receive(member, action),
            (Phase::Polling, EventView::Action { member, action }) => self.receive(member, action),
            (Phase::Idle, EventView::Closed) => (
                State { phase: Phase::Stopped, ..self },
                CommandView::Stop,
            ),
            (Phase::Polling, EventView::Empty) => self.flush_at(0),
            (Phase::Seeding, EventView::Roles(current)) => {
                let (member, action) = self.held->0;
                let wanted = applied(current, action.give, action.remove.to_set());
                (
                    State {
                        edits: bind(self.edits, member, wanted),
                        phase: Phase::Polling,
                        held: None,
                        ..self
                    },
                    CommandView::TryReceive,
                )
            },
            (Phase::Seeding, EventView::FetchFailed) => (
                State { phase: Phase::Polling, held: None, ..self },
                CommandView::TryReceive,
            ),
            (Phase::Checking, EventView::Roles(current)) => {
                let (member, wanted) = self.edits[self.cursor as int];
                if current.to_set() == wanted.to_set() {
                    self.flush_at(self.cursor + 1)
                } else {
                    (State { phase: Phase::Editing, ..self }, CommandView::Replace(member, wanted))
                }
            },
            (Phase::Checking, EventView::FetchFailed) => self.flush_at(self.cursor + 1),
            (Phase::Editing, EventView::Edited) => self.flush_at(self.cursor + 1),
            (Phase::Editing, EventView::EditFailed) => self.flush_at(self.cursor + 1),
            (Phase::Editing, EventView::RetryAfter(delay)) => (
                State { phase: Phase::Sleeping, delay, ..self },
                CommandView::Sleep(delay),
            ),
            (Phase::Sleeping, EventView::Slept) => (
                State {
                    edits: self.edits.subrange(self.cursor as int, self.edits.len() as int),
                    phase: Phase::Polling,
                    cursor: 0,
                    ..self
                },
                CommandView::TryReceive,
            ),
            _ => (self, self.awaited()),
        }
    }
}

/// The coordinator of one server.
pub struct Coordinator {
    edits: IndexMap<String, Vec<String>>,
    phase: Phase,
    cursor: usize,
    held: Option<(String, RoleAction)>,
    delay: Delay,
}

impl View for Coordinator {
    type V = State;

    closed spec fn view(&self) -> State {
        State {
            edits: entries_of(self.edits),
            phase: self.phase,
            cursor: self.cursor as nat,
            held: match self.held {
                Some((member, action)) => Some((member@, action@)),
                None => None,
            },
            delay: self.delay,
        }
    }
}

impl Coordinator {
    #[verifier::type_invariant]
    closed spec fn inv(self) -> bool {
        self@.wf()
    }

    /// A coordinator that has received nothing yet. Its first command is
    /// `Command::Receive`.
    pub fn new() -> (out: Coordinator)
        ensures
            out@ == State::initial(),
            out@.wf(),
    {
        let edits = new_map();
        Coordinator {
            edits,
            phase: Phase::Idle,
            cursor: 0,
            held: None,
            delay: Delay { secs: 0, nanos: 0 },
        }
    }

    /// What the coordinator is waiting for.
    pub fn phase(&self) -> (phase: Phase)
        ensures
            phase == self@.phase,
    {
        self.phase
    }

    /// The number of members with pending edits.
    pub fn pending(&self) -> (n: usize)
        ensures
            n == self@.edits.len(),
    {
        count(&self.edits)
    }

    /// The command that the coordinator is waiting on: what the caller has to
    /// perform next.
    pub fn awaited(&self) -> (command: Command)
        ensures
            command@ == self@.awaited(),
    {
        proof {
            use_type_invariant(self);
        }
        match self.phase {
            Phase::Idle => Command::Receive,
            Phase::Polling => Command::TryReceive,
            Phase::Seeding => match &self.held {
                Some(pair) => Command::Fetch(pair.0.clone()),
                None => Command::Fetch(String::new()),
            },
            Phase::Checking => match entry_at(&self.edits, self.cursor) {
                Some((member, _)) => Command::Fetch(member.clone()),
                None => Command::Receive,
            },
            Phase::Editing => match entry_at(&self.edits, self.cursor) {
                Some((member, wanted)) => Command::Replace(member.clone(), copy_texts(wanted)),
                None => Command::Receive,
            },
            Phase::Sleeping => Command::Sleep(self.delay),
            Phase::Stopped => Command::Stop,
        }
    }

    /// Takes the outcome of the last command and says what to do next.
    pub fn step(self, event: Event) -> (out: (Coordinator, Command))
        ensures
            (out.0@, out.1@) == self@.step(event@),
            out.0@.wf(),
    {
        proof {
            use_type_invariant(&self);
        }
        let phase = self.phase;
        match (phase, event) {
            (Phase::Idle, Event::Action { member, action }) => self.receive(member, action),
            (Phase::Polling, Event::Action { member, action }) => self.receive(member, action),
            (Phase::Idle, Event::Closed) => {
                let Coordinator { edits, phase: _, cursor, held, delay } = self;
                (Coordinator { edits, phase: Phase::Stopped, cursor, held, delay }, Command::Stop)
            },
            (Phase::Polling, Event::Empty) => self.flush_at(0),
            (Phase::Seeding, Event::Roles(current)) => {
                let Coordinator { mut edits, phase: _, cursor, held, delay } = self;
                match held {
                    Some((member, action)) => {
                        let wanted = action.apply(&current);
                        put(&mut edits, member, wanted);
                        (
                            Coordinator { edits, phase: Phase::Polling, cursor, held: None, delay },
                            Command::TryReceive,
                        )
                    },
                    None => (
                        Coordinator { edits, phase: Phase::Polling, cursor, held: None, delay },
                        Command::TryReceive,
                    ),
                }
            },
            (Phase::Seeding, Event::FetchFailed) => {
                let Coordinator { edits, phase: _, cursor, held: _, delay } = self;
                (
                    Coordinator { edits, phase: Phase::Polling, cursor, held: None, delay },
                    Command::TryReceive,
                )
            },
            (Phase::Checking, Event::Roles(current)) => {
                let settled = match entry_at(&self.edits, self.cursor) {
                    Some((_, wanted)) => same_roles(&current, wanted),
                    None => true,
                };
                if settled {
                    self.flush_next()
                } else {
                    let command = self.awaited_edit();
                    let Coordinator { edits, phase: _, cursor, held, delay } = self;
                    (Coordinator { edits, phase: Phase::Editing, cursor, held, delay }, command)
                }
            },
            (Phase::Checking, Event::FetchFailed) => self.flush_next(),
            (Phase::Editing, Event::Edited) => self.flush_next(),
            (Phase::Editing, Event::EditFailed) => self.flush_next(),
            (Phase::Editing, Event::RetryAfter(wait)) => {
                let Coordinator { edits, phase: _, cursor, held, delay: _ } = self;
                (
                    Coordinator { edits, phase: Phase::Sleeping, cursor, held, delay: wait },
                    Command::Sleep(wait),
                )
            },
            (Phase::Sleeping, Event::Slept) => {
                let Coordinator { mut edits, phase: _, cursor, held, delay } = self;
                drop_front(&mut edits, cursor);
                (
                    Coordinator { edits, phase: Phase::Polling, cursor: 0, held, delay },
                    Command::TryReceive,
                )
            },
            _ => {
                let command = self.awaited();
                (self, command)
            },
        }
    }

    /// The replacement that a flush asks for at the cursor.
    fn awaited_edit(&self) -> (command: Command)
        requires
            self@.cursor < self@.edits.len(),
        ensures
            command@ == CommandView::Replace(
                self@.edits[self@.cursor as int].0,
                self@.edits[self@.cursor as int].1,
            ),
    {
        match entry_at(&self.edits, self.cursor) {
            Some((member, wanted)) => Command::Replace(member.clone(), copy_texts(wanted)),
            None => Command::Receive,
        }
    }

    fn flush_next(self) -> (out: (Coordinator, Command))
        requires
            distinct_keys(self@.edits),
            self@.cursor < self@.edits.len(),
        ensures
            (out.0@, out.1@) == self@.flush_at(self@.cursor + 1),
            out.0@.wf(),
    {
        // The cursor is below the length, and the length is a `usize`.
        let _ = count(&self.edits);
        let next = self.cursor + 1;
        self.flush_at(next)
    }

    fn flush_at(self, cursor: usize) -> (out: (Coordinator, Command))
        requires
            distinct_keys(self@.edits),
        ensures
            (out.0@, out.1@) == self@.flush_at(cursor as nat),
            out.0@.wf(),
    {
        let Coordinator { mut edits, phase: _, cursor: _, held, delay } = self;
        match entry_at(&edits, cursor) {
            Some((member, _)) => {
                let command = Command::Fetch(member.clone());
                (Coordinator { edits, phase: Phase::Checking, cursor, held, delay }, command)
            },
            None => {
                clear(&mut edits);
                (Coordinator { edits, phase: Phase::Idle, cursor: 0, held, delay }, Command::Receive)
            },
        }
    }

    fn receive(self, member: String, action: RoleAction) -> (out: (Coordinator, Command))
        requires
            distinct_keys(self@.edits),
        ensures
            (out.0@, out.1@) == self@.receive(member@, action@),
            out.0@.wf(),
    {
        let Coordinator { mut edits, phase: _, cursor, held: _, delay } = self;
        let ghost before = entries_of(edits);
        match find(&edits, member.as_str()) {
            Some(at) => {
                proof {
                    lemma_index_of(before, member@, at as int);
                }
                let wanted = match entry_at(&edits, at) {
                    Some((_, current)) => action.apply(current),
                    None => Vec::new(),
                };
                put(&mut edits, member, wanted);
                (
                    Coordinator { edits, phase: Phase::Polling, cursor, held: None, delay },
                    Command::TryReceive,
                )
            },
            None => {
                let command = Command::Fetch(member.clone());
                (
                    Coordinator {
                        edits,
                        phase: Phase::Seeding,
                        cursor,
                        held: Some((member, action)),
                        delay,
                    },
                    command,
                )
            },
        }
    }
}

} // verus!
