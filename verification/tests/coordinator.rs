use roles_bot::coordinator::{Command, Coordinator, Delay, Event, Phase};
use roles_bot::roles::RoleAction;
use std::collections::{BTreeSet, HashMap};

fn list(items: &[&str]) -> Vec<String> {
    items.iter().map(|s| s.to_string()).collect()
}

fn action(give: &[&str], remove: &[&str]) -> RoleAction {
    RoleAction { give: list(give), remove: list(remove) }
}

fn set(items: &[String]) -> BTreeSet<String> {
    items.iter().cloned().collect()
}

/// A stand-in for the remote: it holds each member's roles, answers fetches,
/// performs replacements, and counts them. A member named in `limited` has its
/// next replacement refused with a rate limit, once.
struct Remote {
    roles: HashMap<String, Vec<String>>,
    replaced: Vec<String>,
    fetched: Vec<String>,
    limited: Vec<String>,
    slept: Vec<Delay>,
}

impl Remote {
    fn new() -> Remote {
        Remote {
            roles: HashMap::new(),
            replaced: Vec::new(),
            fetched: Vec::new(),
            limited: Vec::new(),
            slept: Vec::new(),
        }
    }

    fn held(&self, member: &str) -> BTreeSet<String> {
        set(self.roles.get(member).map(|v| v.as_slice()).unwrap_or(&[]))
    }
}

/// Runs the coordinator until it waits for an action that the mailbox does
/// not hold, or stops. `mailbox` is drained from the front.
fn run(mut coordinator: Coordinator, remote: &mut Remote, mailbox: &mut Vec<(String, RoleAction)>, closed: bool) -> Coordinator {
    let mut command = coordinator.awaited();
    for _ in 0..10_000 {
        let event = match command {
            Command::Receive => {
                if mailbox.is_empty() {
                    if closed {
                        Event::Closed
                    } else {
                        return coordinator;
                    }
                } else {
                    let (member, action) = mailbox.remove(0);
                    Event::Action { member, action }
                }
            }
            Command::TryReceive => {
                if mailbox.is_empty() {
                    Event::Empty
                } else {
                    let (member, action) = mailbox.remove(0);
                    Event::Action { member, action }
                }
            }
            Command::Fetch(member) => {
                remote.fetched.push(member.clone());
                Event::Roles(remote.roles.get(&member).cloned().unwrap_or_default())
            }
            Command::Replace(member, roles) => {
                if let Some(at) = remote.limited.iter().position(|m| *m == member) {
                    remote.limited.remove(at);
                    Event::RetryAfter(Delay { secs: 1, nanos: 500 })
                } else {
                    remote.replaced.push(member.clone());
                    remote.roles.insert(member, roles);
                    Event::Edited
                }
            }
            Command::Sleep(delay) => {
                remote.slept.push(delay);
                Event::Slept
            }
            Command::Stop => return coordinator,
        };
        let (next, asked) = coordinator.step(event);
        coordinator = next;
        command = asked;
    }
    panic!("the coordinator did not come to rest");
}

#[test]
fn new_coordinator_waits_for_an_action() {
    let coordinator = Coordinator::new();
    assert_eq!(coordinator.phase(), Phase::Idle);
    assert_eq!(coordinator.pending(), 0);
    assert!(matches!(coordinator.awaited(), Command::Receive));
}

#[test]
fn first_action_asks_for_the_members_roles() {
    let coordinator = Coordinator::new();
    let (coordinator, command) =
        coordinator.step(Event::Action { member: "m".to_string(), action: action(&["a"], &[]) });
    assert_eq!(coordinator.phase(), Phase::Seeding);
    match command {
        Command::Fetch(member) => assert_eq!(member, "m"),
        _ => panic!("expected a fetch"),
    }
    let (coordinator, command) = coordinator.step(Event::Roles(list(&["x"])));
    assert_eq!(coordinator.phase(), Phase::Polling);
    assert_eq!(coordinator.pending(), 1);
    assert!(matches!(command, Command::TryReceive));
}

#[test]
fn flush_replaces_with_the_merged_roles() {
    let mut remote = Remote::new();
    remote.roles.insert("m".to_string(), list(&["x", "y"]));
    let mut mailbox = vec![
        ("m".to_string(), action(&["a"], &["x"])),
        ("m".to_string(), action(&["b"], &["a"])),
    ];
    let coordinator = run(Coordinator::new(), &mut remote, &mut mailbox, false);
    assert_eq!(coordinator.phase(), Phase::Idle);
    assert_eq!(coordinator.pending(), 0);
    assert_eq!(remote.held("m"), set(&list(&["y", "b"])));
    assert_eq!(remote.replaced, list(&["m"]));
}

#[test]
fn give_and_remove_of_one_role_removes_it() {
    let mut remote = Remote::new();
    remote.roles.insert("m".to_string(), list(&["x"]));
    let mut mailbox = vec![("m".to_string(), action(&["a", "x"], &["a"]))];
    run(Coordinator::new(), &mut remote, &mut mailbox, false);
    assert_eq!(remote.held("m"), set(&list(&["x"])));
    assert!(remote.replaced.is_empty());
}

#[test]
fn unchanged_member_costs_no_replacement() {
    let mut remote = Remote::new();
    remote.roles.insert("m".to_string(), list(&["a"]));
    let mut mailbox = vec![("m".to_string(), action(&["a"], &[]))];
    run(Coordinator::new(), &mut remote, &mut mailbox, false);
    assert!(remote.replaced.is_empty());
    assert_eq!(remote.fetched, list(&["m", "m"]));
}

#[test]
fn second_flush_without_input_makes_no_remote_call() {
    let mut remote = Remote::new();
    let mut mailbox = vec![
        ("m1".to_string(), action(&["a"], &[])),
        ("m2".to_string(), action(&["b"], &[])),
    ];
    let coordinator = run(Coordinator::new(), &mut remote, &mut mailbox, false);
    assert_eq!(remote.replaced, list(&["m1", "m2"]));
    assert_eq!(remote.held("m1"), set(&list(&["a"])));
    assert_eq!(remote.held("m2"), set(&list(&["b"])));
    let calls = (remote.replaced.len(), remote.fetched.len());
    // The same actions again: every member already holds what is wanted.
    let mut again = vec![
        ("m1".to_string(), action(&["a"], &[])),
        ("m2".to_string(), action(&["b"], &[])),
    ];
    let coordinator = run(coordinator, &mut remote, &mut again, false);
    assert_eq!(remote.replaced.len(), calls.0);
    // Nothing pending: the coordinator only waits.
    let before = remote.fetched.len();
    let coordinator = run(coordinator, &mut remote, &mut Vec::new(), false);
    assert_eq!(remote.fetched.len(), before);
    assert_eq!(coordinator.phase(), Phase::Idle);
}

#[test]
fn members_are_flushed_in_the_order_first_touched() {
    let mut remote = Remote::new();
    let mut mailbox = vec![
        ("b".to_string(), action(&["r"], &[])),
        ("a".to_string(), action(&["r"], &[])),
        ("b".to_string(), action(&["s"], &[])),
    ];
    run(Coordinator::new(), &mut remote, &mut mailbox, false);
    assert_eq!(remote.replaced, list(&["b", "a"]));
    assert_eq!(remote.held("b"), set(&list(&["r", "s"])));
}

#[test]
fn rate_limit_sleeps_and_resumes_at_the_limited_member() {
    let mut remote = Remote::new();
    remote.limited.push("m2".to_string());
    let mut mailbox = vec![
        ("m1".to_string(), action(&["a"], &[])),
        ("m2".to_string(), action(&["b"], &[])),
        ("m3".to_string(), action(&["c"], &[])),
    ];
    let coordinator = run(Coordinator::new(), &mut remote, &mut mailbox, false);
    assert_eq!(coordinator.phase(), Phase::Idle);
    assert_eq!(remote.slept, vec![Delay { secs: 1, nanos: 500 }]);
    // m1 was replaced once, before the limit, and never again.
    assert_eq!(remote.replaced, list(&["m1", "m2", "m3"]));
    // m1 was fetched to seed and to check; after the limit it is not fetched again.
    assert_eq!(remote.fetched.iter().filter(|m| *m == "m1").count(), 2);
    assert_eq!(remote.held("m2"), set(&list(&["b"])));
    assert_eq!(remote.held("m3"), set(&list(&["c"])));
}

#[test]
fn rate_limit_on_the_first_member_keeps_the_whole_map() {
    let coordinator = Coordinator::new();
    let (coordinator, _) =
        coordinator.step(Event::Action { member: "m".to_string(), action: action(&["a"], &[]) });
    let (coordinator, _) = coordinator.step(Event::Roles(Vec::new()));
    let (coordinator, _) = coordinator.step(Event::Empty);
    assert_eq!(coordinator.phase(), Phase::Checking);
    let (coordinator, command) = coordinator.step(Event::Roles(Vec::new()));
    match command {
        Command::Replace(member, roles) => {
            assert_eq!(member, "m");
            assert_eq!(roles, list(&["a"]));
        }
        _ => panic!("expected a replacement"),
    }
    let (coordinator, command) = coordinator.step(Event::RetryAfter(Delay { secs: 2, nanos: 0 }));
    assert!(matches!(command, Command::Sleep(Delay { secs: 2, nanos: 0 })));
    assert_eq!(coordinator.phase(), Phase::Sleeping);
    let (coordinator, command) = coordinator.step(Event::Slept);
    assert!(matches!(command, Command::TryReceive));
    assert_eq!(coordinator.pending(), 1);
    assert_eq!(coordinator.phase(), Phase::Polling);
}

#[test]
fn action_arriving_during_the_sleep_is_merged_before_the_flush_restarts() {
    let mut remote = Remote::new();
    let coordinator = Coordinator::new();
    let (coordinator, _) =
        coordinator.step(Event::Action { member: "m".to_string(), action: action(&["a"], &[]) });
    let (coordinator, _) = coordinator.step(Event::Roles(Vec::new()));
    let (coordinator, _) = coordinator.step(Event::Empty);
    let (coordinator, _) = coordinator.step(Event::Roles(Vec::new()));
    let (coordinator, _) = coordinator.step(Event::RetryAfter(Delay { secs: 0, nanos: 1 }));
    let (coordinator, _) = coordinator.step(Event::Slept);
    let mut mailbox = vec![("m".to_string(), action(&["b"], &["a"]))];
    let coordinator = run(coordinator, &mut remote, &mut mailbox, false);
    assert_eq!(coordinator.phase(), Phase::Idle);
    assert_eq!(remote.held("m"), set(&list(&["b"])));
    assert_eq!(remote.replaced, list(&["m"]));
}

#[test]
fn failed_edit_is_skipped_and_the_batch_goes_on() {
    let coordinator = Coordinator::new();
    let (coordinator, _) =
        coordinator.step(Event::Action { member: "m1".to_string(), action: action(&["a"], &[]) });
    let (coordinator, _) = coordinator.step(Event::Roles(Vec::new()));
    let (coordinator, _) =
        coordinator.step(Event::Action { member: "m2".to_string(), action: action(&["b"], &[]) });
    let (coordinator, _) = coordinator.step(Event::Roles(Vec::new()));
    let (coordinator, _) = coordinator.step(Event::Empty);
    let (coordinator, _) = coordinator.step(Event::Roles(Vec::new()));
    let (coordinator, command) = coordinator.step(Event::EditFailed);
    match command {
        Command::Fetch(member) => assert_eq!(member, "m2"),
        _ => panic!("expected the next member"),
    }
    let (coordinator, _) = coordinator.step(Event::FetchFailed);
    assert_eq!(coordinator.phase(), Phase::Idle);
    assert_eq!(coordinator.pending(), 0);
}

#[test]
fn failed_seed_drops_the_action() {
    let coordinator = Coordinator::new();
    let (coordinator, _) =
        coordinator.step(Event::Action { member: "m".to_string(), action: action(&["a"], &[]) });
    let (coordinator, command) = coordinator.step(Event::FetchFailed);
    assert!(matches!(command, Command::TryReceive));
    assert_eq!(coordinator.pending(), 0);
    let (coordinator, command) = coordinator.step(Event::Empty);
    assert!(matches!(command, Command::Receive));
    assert_eq!(coordinator.phase(), Phase::Idle);
}

#[test]
fn closed_mailbox_stops_the_actor() {
    let coordinator = run(Coordinator::new(), &mut Remote::new(), &mut Vec::new(), true);
    assert_eq!(coordinator.phase(), Phase::Stopped);
    let (coordinator, command) = coordinator.step(Event::Empty);
    assert!(matches!(command, Command::Stop));
    assert_eq!(coordinator.phase(), Phase::Stopped);
}

#[test]
fn unexpected_event_repeats_the_awaited_command() {
    let coordinator = Coordinator::new();
    let (coordinator, command) = coordinator.step(Event::Edited);
    assert!(matches!(command, Command::Receive));
    let (coordinator, _) =
        coordinator.step(Event::Action { member: "m".to_string(), action: action(&["a"], &[]) });
    let (coordinator, command) = coordinator.step(Event::Slept);
    match command {
        Command::Fetch(member) => assert_eq!(member, "m"),
        _ => panic!("expected the fetch again"),
    }
    assert_eq!(coordinator.phase(), Phase::Seeding);
}

/// What a member that holds `held` should hold after `queue`: each of its
/// actions, in turn, adds what it gives and then takes away what it removes.
fn folded(held: &[&str], queue: &[(String, RoleAction)], member: &str) -> BTreeSet<String> {
    let mut roles = set(&list(held));
    for (who, action) in queue {
        if who == member {
            roles.extend(action.give.iter().cloned());
            for role in &action.remove {
                roles.remove(role);
            }
        }
    }
    roles
}

#[test]
fn a_run_with_rate_limits_ends_with_the_folded_roles() {
    let mut remote = Remote::new();
    remote.roles.insert("m1".to_string(), list(&["x", "a"]));
    remote.roles.insert("m3".to_string(), list(&["c"]));
    remote.roles.insert("m4".to_string(), list(&["z"]));
    remote.limited = list(&["m1", "m2", "m2", "m3"]);
    let queue = vec![
        ("m1".to_string(), action(&["a", "b"], &["x"])),
        ("m2".to_string(), action(&["b"], &[])),
        ("m1".to_string(), action(&["x"], &["a", "b"])),
        ("m3".to_string(), action(&["c"], &["d"])),
        ("m2".to_string(), action(&["c"], &["b"])),
        ("m1".to_string(), action(&["b"], &[])),
    ];
    let mut mailbox = queue.clone();
    let coordinator = run(Coordinator::new(), &mut remote, &mut mailbox, false);
    assert_eq!(coordinator.phase(), Phase::Idle);
    assert_eq!(coordinator.pending(), 0);
    assert_eq!(remote.slept.len(), 3);
    assert_eq!(remote.held("m1"), folded(&["x", "a"], &queue, "m1"));
    assert_eq!(remote.held("m1"), set(&list(&["x", "b"])));
    assert_eq!(remote.held("m2"), folded(&[], &queue, "m2"));
    assert_eq!(remote.held("m2"), set(&list(&["c"])));
    assert_eq!(remote.held("m3"), folded(&["c"], &queue, "m3"));
    // m3 holds what it should already, so it is never replaced; its limit is
    // met by nobody, and a member that no action touched keeps its roles.
    assert_eq!(remote.held("m4"), set(&list(&["z"])));
    assert!(!remote.replaced.contains(&"m3".to_string()));
    assert!(!remote.replaced.contains(&"m4".to_string()));
}
