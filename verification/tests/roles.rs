use roles_bot::roles::{apply_roles, has_role, same_roles};

fn list(items: &[&str]) -> Vec<String> {
    items.iter().map(|s| s.to_string()).collect()
}

#[test]
fn apply_gives_then_removes() {
    let out = apply_roles(&list(&["a", "b"]), &list(&["c", "b"]), &list(&["a"]));
    assert_eq!(out, list(&["b", "c"]));
}

#[test]
fn removal_wins_over_gift() {
    let out = apply_roles(&list(&["a"]), &list(&["x"]), &list(&["x"]));
    assert_eq!(out, list(&["a"]));
}

#[test]
fn same_roles_ignores_order_and_repeats() {
    assert!(same_roles(&list(&["a", "b"]), &list(&["b", "a", "a"])));
    assert!(!same_roles(&list(&["a", "b"]), &list(&["a"])));
    assert!(!same_roles(&list(&["a"]), &list(&["a", "c"])));
    assert!(same_roles(&list(&[]), &list(&[])));
}

#[test]
fn has_role_finds_exact_text() {
    assert!(has_role(&list(&["a", "b"]), &"b".to_string()));
    assert!(!has_role(&list(&["a", "b"]), &"B".to_string()));
}
