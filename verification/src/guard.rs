//! The authorization guard: permission and role-rank checks over data that
//! the caller has fetched.
//!
//! A rank is a number; the lower it is, the more authority it carries. An
//! actor may touch a role only if the role's rank is greater than the actor's
//! own. Every mutation is checked twice, once for the bot and once for the
//! person who asked, the bot first.

use crate::error::{Error, ErrorView, Permission};
use crate::roles::{has_role, role_set};
use crate::text::{copy_texts, lower, same_ignoring_case, same_text, spells, texts, utf8};
use vstd::prelude::*;

verus! {

/// The rank of an actor that holds no role of the server: greater than the
/// rank of every role, so that such an actor may touch none.
pub const NO_RANK: i64 = i64::MAX;

/// A role of a server.
#[derive(Debug)]
pub struct Role {
    pub id: String,
    pub name: String,
    pub rank: i64,
}

impl Clone for Role {
    fn clone(&self) -> (out: Self)
        ensures
            out == *self,
    {
        Role { id: self.id.clone(), name: self.name.clone(), rank: self.rank }
    }
}

/// A server and its role table, in the order in which references are
/// resolved.
#[derive(Debug)]
pub struct Server {
    pub id: String,
    pub roles: Vec<Role>,
}

impl Clone for Server {
    fn clone(&self) -> (out: Self)
        ensures
            out.id == self.id,
            out.roles@ == self.roles@,
    {
        let mut roles: Vec<Role> = Vec::new();
        let mut i: usize = 0;
        while i < self.roles.len()
            invariant
                i <= self.roles.len(),
                roles@ == self.roles@.take(i as int),
            decreases self.roles.len() - i,
        {
            roles.push(self.roles[i].clone());
            assert(roles@ =~= self.roles@.take(i + 1));
            i += 1;
        }
        assert(self.roles@.take(self.roles.len() as int) =~= self.roles@);
        Server { id: self.id.clone(), roles }
    }
}

/// A member of a server and the identifiers of the roles it holds.
#[derive(Debug)]
pub struct Member {
    pub user_id: String,
    pub roles: Vec<String>,
}

impl Clone for Member {
    fn clone(&self) -> (out: Self)
        ensures
            out.user_id@ == self.user_id@,
            texts(out.roles@) == texts(self.roles@),
    {
        Member { user_id: self.user_id.clone(), roles: copy_texts(&self.roles) }
    }
}

/// The permissions that an actor has on a server, as far as this library
/// asks for them.
#[derive(Clone, Copy, Debug, PartialEq, Eq, Structural)]
pub struct Permissions {
    pub assign_roles: bool,
    pub manage_role: bool,
    pub manage_server: bool,
    pub send_message: bool,
}

/// How a reference can name a role.
#[derive(Clone, Copy, Debug, PartialEq, Eq, Structural)]
pub enum Naming {
    /// The reference is the role's identifier.
    Id,
    /// The reference is the role's name.
    Name,
    /// The reference is the role's name but for the case of ASCII letters.
    NameIgnoringCase,
}

impl Permissions {
    /// Whether `permission` is granted.
    pub open spec fn grants(self, permission: Permission) -> bool {
        match permission {
            Permission::AssignRoles => self.assign_roles,
            Permission::ManageRole => self.manage_role,
            Permission::ManageServer => self.manage_server,
            Permission::SendMessage => self.send_message,
        }
    }

    /// Whether `permission` is granted.
    pub fn has(&self, permission: Permission) -> (granted: bool)
        ensures
            granted == self.grants(permission),
    {
        match permission {
            Permission::AssignRoles => self.assign_roles,
            Permission::ManageRole => self.manage_role,
            Permission::ManageServer => self.manage_server,
            Permission::SendMessage => self.send_message,
        }
    }
}

/// The first of `required` that `granted` lacks.
pub open spec fn first_missing(granted: Permissions, required: Seq<Permission>) -> Option<
    Permission,
>
    decreases required.len(),
{
    if required.len() == 0 {
        None
    } else if !granted.grants(required[0]) {
        Some(required[0])
    } else {
        first_missing(granted, required.drop_first())
    }
}

/// What a missing permission is reported as: `Missing` for the bot,
/// `UserMissing` for anybody else.
pub open spec fn missing(is_bot: bool, permission: Permission) -> ErrorView {
    if is_bot {
        ErrorView::Missing(permission)
    } else {
        ErrorView::UserMissing(permission)
    }
}

/// Checks that the actor `user_id`, whose permissions are `granted`, has
/// every permission of `required`. The first one that is lacking is
/// reported, as the bot's where `user_id` is `my_id`.
pub fn check_server_perms(
    granted: &Permissions,
    user_id: &str,
    my_id: &str,
    required: &[Permission],
) -> (out: Result<(), Error>)
    ensures
        match out {
            Ok(_) => first_missing(*granted, required@) is None,
            Err(error) => first_missing(*granted, required@) matches Some(permission) && error@
                == missing(user_id@ == my_id@, permission),
        },
{
    let mut i: usize = 0;
    assert(required@.skip(0) =~= required@);
    while i < required.len()
        invariant
            i <= required.len(),
            first_missing(*granted, required@) == first_missing(*granted, required@.skip(i as int)),
        decreases required.len() - i,
    {
        let permission = required[i];
        proof {
            assert(required@.skip(i as int)[0] == permission);
            assert(required@.skip(i as int).drop_first() =~= required@.skip(i as int + 1));
        }
        if !granted.has(permission) {
            return if same_text(user_id, my_id) {
                Err(Error::Missing(permission))
            } else {
                Err(Error::UserMissing(permission))
            };
        }
        i += 1;
    }
    Ok(())
}

/// Whether `reference` names `role` in the way `how`.
pub open spec fn names(role: Role, reference: Seq<char>, how: Naming) -> bool {
    match how {
        Naming::Id => role.id@ == reference,
        Naming::Name => role.name@ == reference,
        Naming::NameIgnoringCase => same_ignoring_case(utf8(role.name@), utf8(reference)),
    }
}

/// Whether the role at `at` is the first that `reference` names in the way
/// `how`.
pub open spec fn first_named(roles: Seq<Role>, reference: Seq<char>, how: Naming, at: int) -> bool {
    &&& 0 <= at < roles.len()
    &&& names(roles[at], reference, how)
    &&& forall|j: int| 0 <= j < at ==> !names(#[trigger] roles[j], reference, how)
}

/// Whether `reference` names a role in the way `how`.
pub open spec fn named(roles: Seq<Role>, reference: Seq<char>, how: Naming) -> bool {
    exists|at: int| first_named(roles, reference, how, at)
}

/// The index of the first role that `reference` names in the way `how`.
pub open spec fn index_named(roles: Seq<Role>, reference: Seq<char>, how: Naming) -> int {
    choose|at: int| first_named(roles, reference, how, at)
}

/// The index of the role that `reference` stands for: the role with that
/// identifier; failing that, the first role with that name; failing that, the
/// first role with that name but for the case of ASCII letters.
pub open spec fn resolve(roles: Seq<Role>, reference: Seq<char>) -> Option<int> {
    if named(roles, reference, Naming::Id) {
        Some(index_named(roles, reference, Naming::Id))
    } else if named(roles, reference, Naming::Name) {
        Some(index_named(roles, reference, Naming::Name))
    } else if named(roles, reference, Naming::NameIgnoringCase) {
        Some(index_named(roles, reference, Naming::NameIgnoringCase))
    } else {
        None
    }
}

/// The least rank among the roles of the table that `held` names, `NO_RANK`
/// where it names none.
pub open spec fn lowest_rank(roles: Seq<Role>, held: Set<Seq<char>>) -> int
    decreases roles.len(),
{
    if roles.len() == 0 {
        NO_RANK as int
    } else {
        let before = lowest_rank(roles.drop_last(), held);
        if held.contains(roles.last().id@) && roles.last().rank < before {
            roles.last().rank as int
        } else {
            before
        }
    }
}

/// `lowest_rank` is a lower bound of the ranks held and is one of them
/// unless it is `NO_RANK`.
pub proof fn lemma_lowest_rank(roles: Seq<Role>, held: Set<Seq<char>>)
    ensures
        forall|i: int|
            0 <= i < roles.len() && held.contains((#[trigger] roles[i]).id@) ==> lowest_rank(
                roles,
                held,
            ) <= roles[i].rank,
        lowest_rank(roles, held) == NO_RANK || exists|i: int|
            0 <= i < roles.len() && held.contains((#[trigger] roles[i]).id@) && roles[i].rank
                == lowest_rank(roles, held),
        i64::MIN <= lowest_rank(roles, held) <= i64::MAX,
    decreases roles.len(),
{
    if roles.len() > 0 {
        let front = roles.drop_last();
        lemma_lowest_rank(front, held);
        assert forall|i: int|
            0 <= i < roles.len() && held.contains((#[trigger] roles[i]).id@) implies lowest_rank(
            roles,
            held,
        ) <= roles[i].rank by {
            if i < front.len() {
                assert(front[i] == roles[i]);
            }
        }
        if lowest_rank(roles, held) != NO_RANK {
            if held.contains(roles.last().id@) && roles.last().rank < lowest_rank(front, held) {
                assert(roles[roles.len() - 1].rank == lowest_rank(roles, held));
            } else {
                let i = choose|i: int|
                    0 <= i < front.len() && held.contains((#[trigger] front[i]).id@)
                        && front[i].rank == lowest_rank(front, held);
                assert(roles[i] == front[i]);
            }
        }
    }
}

proof fn lemma_first_named_unique(roles: Seq<Role>, reference: Seq<char>, how: Naming, at: int)
    requires
        first_named(roles, reference, how, at),
    ensures
        named(roles, reference, how),
        index_named(roles, reference, how) == at,
{
    let chosen = index_named(roles, reference, how);
    assert(first_named(roles, reference, how, chosen));
    if chosen < at {
        assert(!names(roles[chosen], reference, how));
    } else if at < chosen {
        assert(!names(roles[at], reference, how));
    }
}

impl Server {
    /// Whether `reference` names `role` in the way `how`.
    fn role_is_named(role: &Role, reference: &str, how: Naming) -> (yes: bool)
        ensures
            yes == names(*role, reference@, how),
    {
        match how {
            Naming::Id => same_text(role.id.as_str(), reference),
            Naming::Name => same_text(role.name.as_str(), reference),
            Naming::NameIgnoringCase => {
                let name = role.name.as_str().as_bytes();
                let wanted = reference.as_bytes();
                assert(name@.subrange(0, name@.len() as int) =~= name@);
                spells(name, 0, name.len(), wanted)
            },
        }
    }

    /// The index of the first role that `reference` names in the way `how`.
    fn find(&self, reference: &str, how: Naming) -> (found: Option<usize>)
        ensures
            match found {
                Some(at) => first_named(self.roles@, reference@, how, at as int),
                None => !named(self.roles@, reference@, how),
            },
    {
        let mut i: usize = 0;
        while i < self.roles.len()
            invariant
                i <= self.roles.len(),
                forall|j: int| 0 <= j < i ==> !names(#[trigger] self.roles@[j], reference@, how),
            decreases self.roles.len() - i,
        {
            if Self::role_is_named(&self.roles[i], reference, how) {
                return Some(i);
            }
            i += 1;
        }
        None
    }

    /// The role that `reference` stands for, by identifier or by name.
    pub fn role_by_id_or_name(&self, reference: &str) -> (found: Option<&Role>)
        ensures
            match found {
                Some(role) => resolve(self.roles@, reference@) matches Some(at) && 0 <= at
                    < self.roles@.len() && *role == self.roles@[at],
                None => resolve(self.roles@, reference@) is None,
            },
    {
        let mut found = self.find(reference, Naming::Id);
        if found.is_none() {
            found = self.find(reference, Naming::Name);
        }
        if found.is_none() {
            found = self.find(reference, Naming::NameIgnoringCase);
        }
        match found {
            Some(at) => {
                proof {
                    if named(self.roles@, reference@, Naming::Id) {
                        lemma_first_named_unique(self.roles@, reference@, Naming::Id, at as int);
                    } else if named(self.roles@, reference@, Naming::Name) {
                        lemma_first_named_unique(self.roles@, reference@, Naming::Name, at as int);
                    } else {
                        lemma_first_named_unique(
                            self.roles@,
                            reference@,
                            Naming::NameIgnoringCase,
                            at as int,
                        );
                    }
                }
                Some(&self.roles[at])
            },
            None => None,
        }
    }

    /// The first role with the identifier `id`.
    pub fn role_by_id(&self, id: &str) -> (found: Option<&Role>)
        ensures
            match found {
                Some(role) => named(self.roles@, id@, Naming::Id) && *role == self.roles@[index_named(
                    self.roles@,
                    id@,
                    Naming::Id,
                )],
                None => !named(self.roles@, id@, Naming::Id),
            },
    {
        match self.find(id, Naming::Id) {
            Some(at) => {
                proof {
                    lemma_first_named_unique(self.roles@, id@, Naming::Id, at as int);
                }
                Some(&self.roles[at])
            },
            None => None,
        }
    }
}

impl Member {
    /// The member's rank on `server`: the least rank among the roles it
    /// holds, `NO_RANK` where it holds none of the server's roles.
    pub fn effective_rank(&self, server: &Server) -> (rank: i64)
        ensures
            rank == lowest_rank(server.roles@, role_set(self.roles@)),
            forall|i: int|
                0 <= i < server.roles@.len() && role_set(self.roles@).contains(
                    (#[trigger] server.roles@[i]).id@,
                ) ==> rank <= server.roles@[i].rank,
            rank == NO_RANK || exists|i: int|
                0 <= i < server.roles@.len() && role_set(self.roles@).contains(
                    (#[trigger] server.roles@[i]).id@,
                ) && server.roles@[i].rank == rank,
    {
        proof {
            lemma_lowest_rank(server.roles@, role_set(self.roles@));
        }
        let mut rank: i64 = NO_RANK;
        let mut i: usize = 0;
        while i < server.roles.len()
            invariant
                i <= server.roles.len(),
                rank == lowest_rank(server.roles@.take(i as int), role_set(self.roles@)),
            decreases server.roles.len() - i,
        {
            proof {
                assert(server.roles@.take(i as int + 1).drop_last() =~= server.roles@.take(i as int));
            }
            let role = &server.roles[i];
            if role.rank < rank && has_role(&self.roles, &role.id) {
                rank = role.rank;
            }
            i += 1;
        }
        assert(server.roles@.take(server.roles.len() as int) =~= server.roles@);
        rank
    }
}

/// What a role that does not rank below the actor is reported as:
/// `RoleRankTooHigh` for the bot, `UserRankTooLow` for anybody else.
pub open spec fn outranked(is_bot: bool, name: Seq<char>) -> ErrorView {
    if is_bot {
        ErrorView::RoleRankTooHigh(name)
    } else {
        ErrorView::UserRankTooLow(name)
    }
}

/// Why an actor of rank `rank` may not touch the role that `reference`
/// stands for, `None` where it may.
pub open spec fn refusal(roles: Seq<Role>, rank: int, is_bot: bool, reference: Seq<char>) -> Option<
    ErrorView,
> {
    match resolve(roles, reference) {
        None => Some(ErrorView::InvalidRole(reference)),
        Some(at) => if roles[at].rank <= rank {
            Some(outranked(is_bot, roles[at].name@))
        } else {
            None
        },
    }
}

/// The refusal of the first of `references` that the actor may not touch.
pub open spec fn first_refusal(
    roles: Seq<Role>,
    rank: int,
    is_bot: bool,
    references: Seq<Seq<char>>,
) -> Option<ErrorView>
    decreases references.len(),
{
    if references.len() == 0 {
        None
    } else if refusal(roles, rank, is_bot, references[0]) is Some {
        refusal(roles, rank, is_bot, references[0])
    } else {
        first_refusal(roles, rank, is_bot, references.drop_first())
    }
}

/// The first of two refusals.
pub open spec fn or_else(first: Option<ErrorView>, second: Option<ErrorView>) -> Option<ErrorView> {
    if first is Some {
        first
    } else {
        second
    }
}

/// Why the roles of `references` may not be touched: the bot's refusal of
/// the first one that it may not touch, else the person's.
pub open spec fn both_refusal(
    roles: Seq<Role>,
    bot_rank: int,
    person_rank: int,
    person_is_bot: bool,
    references: Seq<Seq<char>>,
) -> Option<ErrorView> {
    or_else(
        first_refusal(roles, bot_rank, true, references),
        first_refusal(roles, person_rank, person_is_bot, references),
    )
}

/// The bot is asked first: a refusal about the person is reported only where
/// the bot itself may touch every role, so that it never hides a refusal
/// about the bot.
pub proof fn lemma_bot_refusal_first(
    roles: Seq<Role>,
    bot_rank: int,
    person_rank: int,
    person_is_bot: bool,
    references: Seq<Seq<char>>,
)
    ensures
        first_refusal(roles, bot_rank, true, references) is Some ==> both_refusal(
            roles,
            bot_rank,
            person_rank,
            person_is_bot,
            references,
        ) == first_refusal(roles, bot_rank, true, references),
        both_refusal(roles, bot_rank, person_rank, person_is_bot, references) is None <==> (
        first_refusal(roles, bot_rank, true, references) is None && first_refusal(
            roles,
            person_rank,
            person_is_bot,
            references,
        ) is None),
{
}

/// Whether `out` reports the refusal `wanted`.
pub open spec fn is_refusal(out: Result<(), Error>, wanted: Option<ErrorView>) -> bool {
    match out {
        Ok(_) => wanted is None,
        Err(error) => wanted == Some(error@),
    }
}

/// Checks that the role that `reference` stands for exists on the server and
/// ranks below the actor `member`; the actor is the bot where its identifier
/// is `my_id`.
pub fn check_above_role(server: &Server, member: &Member, my_id: &str, reference: &str) -> (out:
    Result<(), Error>)
    ensures
        match out {
            Ok(_) => refusal(
                server.roles@,
                lowest_rank(server.roles@, role_set(member.roles@)),
                member.user_id@ == my_id@,
                reference@,
            ) is None,
            Err(error) => refusal(
                server.roles@,
                lowest_rank(server.roles@, role_set(member.roles@)),
                member.user_id@ == my_id@,
                reference@,
            ) == Some(error@),
        },
{
    let rank = member.effective_rank(server);
    match server.role_by_id_or_name(reference) {
        None => Err(Error::InvalidRole(String::from_str(reference))),
        Some(role) => {
            if role.rank <= rank {
                if same_text(member.user_id.as_str(), my_id) {
                    Err(Error::RoleRankTooHigh(role.name.clone()))
                } else {
                    Err(Error::UserRankTooLow(role.name.clone()))
                }
            } else {
                Ok(())
            }
        },
    }
}

/// Checks `check_above_role` for each of `references` in turn and reports the
/// first refusal.
pub fn check_above_roles(server: &Server, member: &Member, my_id: &str, references: &[String]) -> (out:
    Result<(), Error>)
    ensures
        match out {
            Ok(_) => first_refusal(
                server.roles@,
                lowest_rank(server.roles@, role_set(member.roles@)),
                member.user_id@ == my_id@,
                texts(references@),
            ) is None,
            Err(error) => first_refusal(
                server.roles@,
                lowest_rank(server.roles@, role_set(member.roles@)),
                member.user_id@ == my_id@,
                texts(references@),
            ) == Some(error@),
        },
{
    let ghost rank = lowest_rank(server.roles@, role_set(member.roles@));
    let ghost is_bot = member.user_id@ == my_id@;
    let ghost all = texts(references@);
    let mut i: usize = 0;
    assert(all.skip(0) =~= all);
    while i < references.len()
        invariant
            i <= references.len(),
            all == texts(references@),
            rank == lowest_rank(server.roles@, role_set(member.roles@)),
            is_bot == (member.user_id@ == my_id@),
            first_refusal(server.roles@, rank, is_bot, all) == first_refusal(
                server.roles@,
                rank,
                is_bot,
                all.skip(i as int),
            ),
        decreases references.len() - i,
    {
        proof {
            assert(all.skip(i as int)[0] == references@[i as int]@);
            assert(all.skip(i as int).drop_first() =~= all.skip(i as int + 1));
        }
        match check_above_role(server, member, my_id, references[i].as_str()) {
            Err(error) => {
                return Err(error);
            },
            Ok(_) => {},
        }
        i += 1;
    }
    Ok(())
}

} // verus!
