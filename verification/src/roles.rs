//! Lists of role identifiers, and what an action makes of them.
//!
//! A member's roles are a set. They are held as lists, as the remote gives
//! and takes them: the contracts fix each list, and say which set it stands
//! for.

use crate::text::{copy_texts, texts};
use vstd::prelude::*;

verus! {

/// The set of role identifiers that a list stands for.
pub open spec fn role_set(roles: Seq<String>) -> Set<Seq<char>> {
    texts(roles).to_set()
}

/// A member's roles after an action: what is given is added, then what is
/// removed is taken away, so that removal wins where both name a role.
pub open spec fn merged(current: Set<Seq<char>>, give: Set<Seq<char>>, remove: Set<Seq<char>>) -> Set<
    Seq<char>,
> {
    current.union(give).difference(remove)
}

/// What is asked for one member: roles to give and roles to take away. The
/// two lists ought to be disjoint; where they are not, removal wins.
#[derive(Debug)]
pub struct RoleAction {
    pub give: Vec<String>,
    pub remove: Vec<String>,
}

impl Clone for RoleAction {
    fn clone(&self) -> (out: Self)
        ensures
            out@ == self@,
    {
        RoleAction { give: copy_texts(&self.give), remove: copy_texts(&self.remove) }
    }
}

/// A role action over texts.
pub struct ActionView {
    pub give: Seq<Seq<char>>,
    pub remove: Seq<Seq<char>>,
}

impl View for RoleAction {
    type V = ActionView;

    open spec fn view(&self) -> ActionView {
        ActionView { give: texts(self.give@), remove: texts(self.remove@) }
    }
}

impl RoleAction {
    /// The roles that a member holding `current` should hold after this
    /// action.
    pub fn apply(&self, current: &Vec<String>) -> (out: Vec<String>)
        ensures
            texts(out@) == applied(texts(current@), self@.give, self@.remove.to_set()),
    {
        apply_roles(current, &self.give, &self.remove)
    }
}

/// Whether `role` is one of `roles`.
pub fn has_role(roles: &Vec<String>, role: &String) -> (found: bool)
    ensures
        found == role_set(roles@).contains(role@),
{
    let mut i: usize = 0;
    while i < roles.len()
        invariant
            i <= roles.len(),
            forall|j: int| 0 <= j < i ==> (#[trigger] texts(roles@)[j]) != role@,
        decreases roles.len() - i,
    {
        if roles[i] == *role {
            assert(texts(roles@)[i as int] == role@);
            return true;
        }
        i += 1;
    }
    false
}

/// Whether the two lists stand for the same set of roles.
pub fn same_roles(left: &Vec<String>, right: &Vec<String>) -> (same: bool)
    ensures
        same == (role_set(left@) == role_set(right@)),
{
    let mut i: usize = 0;
    while i < left.len()
        invariant
            i <= left.len(),
            forall|j: int| 0 <= j < i ==> role_set(right@).contains((#[trigger] left@[j])@),
        decreases left.len() - i,
    {
        if !has_role(right, &left[i]) {
            assert(texts(left@)[i as int] == left@[i as int]@);
            return false;
        }
        i += 1;
    }
    let mut k: usize = 0;
    while k < right.len()
        invariant
            k <= right.len(),
            forall|j: int| 0 <= j < left.len() ==> role_set(right@).contains((#[trigger] left@[j])@),
            forall|j: int| 0 <= j < k ==> role_set(left@).contains((#[trigger] right@[j])@),
        decreases right.len() - k,
    {
        if !has_role(left, &right[k]) {
            assert(texts(right@)[k as int] == right@[k as int]@);
            return false;
        }
        k += 1;
    }
    proof {
        assert forall|r: Seq<char>| role_set(left@).contains(r) <==> role_set(right@).contains(
            r,
        ) by {
            if texts(left@).contains(r) {
                let j = choose|j: int| 0 <= j < left@.len() && texts(left@)[j] == r;
                assert(role_set(right@).contains(left@[j]@));
            }
            if texts(right@).contains(r) {
                let j = choose|j: int| 0 <= j < right@.len() && texts(right@)[j] == r;
                assert(role_set(left@).contains(right@[j]@));
            }
        }
        assert(role_set(left@) =~= role_set(right@));
    }
    true
}

/// Whether a role is none of `remove`.
pub open spec fn outside(remove: Set<Seq<char>>) -> spec_fn(Seq<char>) -> bool {
    |role: Seq<char>| !remove.contains(role)
}

/// `list` without the roles that `remove` names, in the list's order.
pub open spec fn without(list: Seq<Seq<char>>, remove: Set<Seq<char>>) -> Seq<Seq<char>> {
    list.filter(outside(remove))
}

/// `list` with each role of `more` put at its end in turn, unless the list
/// holds the role by then.
pub open spec fn with_each(list: Seq<Seq<char>>, more: Seq<Seq<char>>) -> Seq<Seq<char>>
    decreases more.len(),
{
    if more.len() == 0 {
        list
    } else {
        let before = with_each(list, more.drop_last());
        if before.contains(more.last()) {
            before
        } else {
            before.push(more.last())
        }
    }
}

/// The list of roles after an action: the current roles that are not
/// removed, then the roles given that are neither removed nor there already.
pub open spec fn applied(current: Seq<Seq<char>>, give: Seq<Seq<char>>, remove: Set<Seq<char>>) -> Seq<
    Seq<char>,
> {
    with_each(without(current, remove), without(give, remove))
}

/// The list that an action makes stands for the set that it should: the
/// current roles and the roles given, without the roles removed.
pub proof fn lemma_applied_set(current: Seq<Seq<char>>, give: Seq<Seq<char>>, remove: Set<Seq<char>>)
    ensures
        applied(current, give, remove).to_set() == merged(current.to_set(), give.to_set(), remove),
{
    let kept = without(current, remove);
    let more = without(give, remove);
    lemma_with_each_set(kept, more);
    let stays = outside(remove);
    assert forall|role: Seq<char>| kept.contains(role) <==> (current.contains(role)
        && !remove.contains(role)) by {
        lemma_filter_holds(current, stays, role);
    }
    assert forall|role: Seq<char>| more.contains(role) <==> (give.contains(role)
        && !remove.contains(role)) by {
        lemma_filter_holds(give, stays, role);
    }
    assert(applied(current, give, remove).to_set() =~= merged(
        current.to_set(),
        give.to_set(),
        remove,
    ));
}

/// A filtered list holds what the list holds and the filter lets pass.
pub proof fn lemma_filter_holds(list: Seq<Seq<char>>, pass: spec_fn(Seq<char>) -> bool, role: Seq<char>)
    ensures
        list.filter(pass).contains(role) <==> (list.contains(role) && pass(role)),
    decreases list.len(),
{
    reveal(Seq::filter);
    if list.len() > 0 {
        let front = list.drop_last();
        lemma_filter_holds(front, pass, role);
        let out = list.filter(pass);
        if front.contains(role) {
            let i = choose|i: int| 0 <= i < front.len() && front[i] == role;
            assert(list[i] == role);
        }
        if list.contains(role) {
            let i = choose|i: int| 0 <= i < list.len() && list[i] == role;
            if i < front.len() {
                assert(front[i] == role);
            }
        }
        if pass(list.last()) {
            assert(out == front.filter(pass).push(list.last()));
            if front.filter(pass).contains(role) {
                let i = choose|i: int| 0 <= i < front.filter(pass).len() && front.filter(pass)[i] == role;
                assert(out[i] == role);
            }
            if out.contains(role) {
                let i = choose|i: int| 0 <= i < out.len() && out[i] == role;
                if i < front.filter(pass).len() {
                    assert(front.filter(pass)[i] == role);
                }
            }
            if role == list.last() {
                assert(out[out.len() - 1] == role);
                assert(list[list.len() - 1] == role);
            }
        }
    }
}

/// `with_each` holds what either list holds.
proof fn lemma_with_each_set(list: Seq<Seq<char>>, more: Seq<Seq<char>>)
    ensures
        with_each(list, more).to_set() == list.to_set().union(more.to_set()),
    decreases more.len(),
{
    if more.len() == 0 {
        assert(more.to_set() =~= Set::<Seq<char>>::empty());
        assert(with_each(list, more).to_set() =~= list.to_set().union(more.to_set()));
    } else {
        let front = more.drop_last();
        lemma_with_each_set(list, front);
        let before = with_each(list, front);
        assert(more =~= front.push(more.last()));
        front.lemma_push_to_set_commute(more.last());
        if !before.contains(more.last()) {
            before.lemma_push_to_set_commute(more.last());
        }
        assert(with_each(list, more).to_set() =~= list.to_set().union(more.to_set()));
    }
}

/// The roles of `current` after `give` is added and `remove` taken away.
pub fn apply_roles(current: &Vec<String>, give: &Vec<String>, remove: &Vec<String>) -> (out: Vec<
    String,
>)
    ensures
        texts(out@) == applied(texts(current@), texts(give@), role_set(remove@)),
        role_set(out@) == merged(role_set(current@), role_set(give@), role_set(remove@)),
{
    let ghost gone = role_set(remove@);
    let ghost held = texts(current@);
    let ghost given = texts(give@);
    let mut out: Vec<String> = Vec::new();
    let mut i: usize = 0;
    assert(texts(out@) =~= held.take(0).filter(outside(gone)));
    while i < current.len()
        invariant
            i <= current.len(),
            gone == role_set(remove@),
            held == texts(current@),
            texts(out@) == held.take(i as int).filter(outside(gone)),
        decreases current.len() - i,
    {
        proof {
            assert(held.take(i + 1).drop_last() =~= held.take(i as int));
            assert(held.take(i + 1).last() == current@[i as int]@);
            reveal(Seq::filter);
        }
        if !has_role(remove, &current[i]) {
            let ghost before = texts(out@);
            out.push(current[i].clone());
            assert(texts(out@) =~= before.push(current@[i as int]@));
        }
        i += 1;
    }
    let ghost base = texts(out@);
    let mut k: usize = 0;
    proof {
        assert(held.take(current.len() as int) =~= held);
        assert(given.take(0).filter(outside(gone)) =~= Seq::<Seq<char>>::empty());
    }
    while k < give.len()
        invariant
            k <= give.len(),
            gone == role_set(remove@),
            given == texts(give@),
            texts(out@) == with_each(base, given.take(k as int).filter(outside(gone))),
        decreases give.len() - k,
    {
        proof {
            assert(given.take(k + 1).drop_last() =~= given.take(k as int));
            assert(given.take(k + 1).last() == give@[k as int]@);
            reveal(Seq::filter);
        }
        if !has_role(remove, &give[k]) {
            proof {
                let more = given.take(k + 1).filter(outside(gone));
                assert(more.drop_last() =~= given.take(k as int).filter(outside(gone)));
            }
            if !has_role(&out, &give[k]) {
                let ghost before = texts(out@);
                out.push(give[k].clone());
                assert(texts(out@) =~= before.push(give@[k as int]@));
            }
        }
        k += 1;
    }
    proof {
        assert(given.take(give.len() as int) =~= given);
        lemma_applied_set(held, given, gone);
    }
    out
}

} // verus!
