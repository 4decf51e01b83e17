//! Roles that every new member receives.
//!
//! A server's settings list the roles, each once. They are configured by a
//! command of up to 25 references to roles, and applied whenever a member
//! who is no bot joins; roles that the server has lost since are dropped
//! from the settings at that time.

use crate::error::{Error, ErrorView, Permission};
use crate::guard::{
    both_refusal, check_above_role, check_above_roles, check_server_perms, first_missing,
    first_refusal, lowest_rank, missing, named, resolve, Member, Naming, Permissions, Role, Server,
};
use crate::roles::{has_role, role_set, RoleAction};
use crate::text::{copy_texts, texts};
use vstd::prelude::*;

verus! {

/// The most roles that a server's settings may list.
pub const AUTOROLE_LIMIT: usize = 25;

/// The settings of one server: the identifiers of the roles given to each
/// member that joins, in the order in which they were configured.
#[derive(Debug)]
pub struct ServerSettings {
    pub id: String,
    pub auto_roles: Vec<String>,
}

impl Clone for ServerSettings {
    fn clone(&self) -> (out: Self)
        ensures
            out.id@ == self.id@,
            texts(out.auto_roles@) == texts(self.auto_roles@),
    {
        ServerSettings { id: self.id.clone(), auto_roles: copy_texts(&self.auto_roles) }
    }
}

/// What a member's arrival leads to.
pub struct JoinPlan {
    /// The settings to store, where roles were dropped from them.
    pub pruned: Option<ServerSettings>,
    /// The action to queue for the member, or the reason why the bot cannot
    /// act.
    pub outcome: Result<Option<RoleAction>, Error>,
}

/// A join plan over texts.
pub struct JoinView {
    /// The roles of the settings to store.
    pub pruned: Option<Seq<Seq<char>>>,
    /// The roles to give, or the reason why the bot cannot act.
    pub outcome: Result<Option<Seq<Seq<char>>>, ErrorView>,
}

/// The identifiers of `wanted` that are identifiers of roles of the table,
/// in their order.
pub open spec fn existing(roles: Seq<Role>, wanted: Seq<Seq<char>>) -> Seq<Seq<char>> {
    wanted.filter(|id: Seq<char>| named(roles, id, Naming::Id))
}

/// What the arrival of a member leads to. Nothing happens where no roles are
/// configured or the member is a bot. Otherwise the roles that the server
/// still has are kept, and the settings are stored again where one was
/// dropped. The bot must be allowed to assign roles and must rank above each
/// role kept; then the roles kept are given, if there are any.
pub open spec fn join_plan(
    auto_roles: Seq<Seq<char>>,
    joined_is_bot: bool,
    roles: Seq<Role>,
    granted: Permissions,
    bot_rank: int,
) -> JoinView {
    if auto_roles.len() == 0 || joined_is_bot {
        JoinView { pruned: None, outcome: Ok(None) }
    } else {
        let kept = existing(roles, auto_roles);
        JoinView {
            pruned: if kept.len() != auto_roles.len() {
                Some(kept)
            } else {
                None
            },
            outcome: if !granted.assign_roles {
                Err(ErrorView::Missing(Permission::AssignRoles))
            } else {
                match first_refusal(roles, bot_rank, true, kept) {
                    Some(error) => Err(error),
                    None => if kept.len() > 0 {
                        Ok(Some(kept))
                    } else {
                        Ok(None)
                    },
                }
            },
        }
    }
}

/// Whether `plan`, made for the server `id`, is what `wanted` describes.
pub open spec fn is_join_plan(plan: JoinPlan, id: Seq<char>, wanted: JoinView) -> bool {
    &&& match plan.pruned {
        Some(settings) => settings.id@ == id && wanted.pruned == Some(texts(settings.auto_roles@)),
        None => wanted.pruned is None,
    }
    &&& match plan.outcome {
        Ok(Some(action)) => wanted.outcome == Ok::<Option<Seq<Seq<char>>>, ErrorView>(
            Some(texts(action.give@)),
        ) && action.remove@.len() == 0,
        Ok(None) => wanted.outcome == Ok::<Option<Seq<Seq<char>>>, ErrorView>(None),
        Err(error) => wanted.outcome == Err::<Option<Seq<Seq<char>>>, ErrorView>(error@),
    }
}

/// The identifiers of `wanted` that are identifiers of roles of the server.
pub fn existing_roles(server: &Server, wanted: &Vec<String>) -> (kept: Vec<String>)
    ensures
        texts(kept@) == existing(server.roles@, texts(wanted@)),
{
    let ghost all = texts(wanted@);
    let ghost keep = |id: Seq<char>| named(server.roles@, id, Naming::Id);
    let mut kept: Vec<String> = Vec::new();
    let mut i: usize = 0;
    assert(texts(kept@) =~= all.take(0).filter(keep));
    while i < wanted.len()
        invariant
            i <= wanted.len(),
            all == texts(wanted@),
            keep == (|id: Seq<char>| named(server.roles@, id, Naming::Id)),
            texts(kept@) == all.take(i as int).filter(keep),
        decreases wanted.len() - i,
    {
        proof {
            assert(all.take(i + 1).drop_last() =~= all.take(i as int));
            assert(all.take(i + 1).last() == wanted@[i as int]@);
            reveal(Seq::filter);
        }
        if server.role_by_id(wanted[i].as_str()).is_some() {
            let ghost before = texts(kept@);
            kept.push(wanted[i].clone());
            assert(texts(kept@) =~= before.push(wanted@[i as int]@));
        }
        i += 1;
    }
    assert(all.take(wanted.len() as int) =~= all);
    kept
}

/// What the arrival of a member on `server` leads to, given the server's
/// settings and whether the member is a bot.
pub fn on_member_join(
    settings: &ServerSettings,
    joined_is_bot: bool,
    server: &Server,
    bot: &Member,
    granted: &Permissions,
) -> (plan: JoinPlan)
    ensures
        is_join_plan(
            plan,
            settings.id@,
            join_plan(
                texts(settings.auto_roles@),
                joined_is_bot,
                server.roles@,
                *granted,
                lowest_rank(server.roles@, role_set(bot.roles@)),
            ),
        ),
{
    if settings.auto_roles.len() == 0 || joined_is_bot {
        return JoinPlan { pruned: None, outcome: Ok(None) };
    }
    let kept = existing_roles(server, &settings.auto_roles);
    let pruned = if kept.len() != settings.auto_roles.len() {
        Some(ServerSettings { id: settings.id.clone(), auto_roles: copy_texts(&kept) })
    } else {
        None
    };
    if !granted.has(Permission::AssignRoles) {
        return JoinPlan { pruned, outcome: Err(Error::Missing(Permission::AssignRoles)) };
    }
    let outcome = match check_above_roles(server, bot, bot.user_id.as_str(), kept.as_slice()) {
        Err(error) => Err(error),
        Ok(_) => if kept.len() > 0 {
            Ok(Some(RoleAction { give: kept, remove: Vec::new() }))
        } else {
            Ok(None)
        },
    };
    JoinPlan { pruned, outcome }
}

/// What a command to configure a server's roles leads to.
pub enum Configured {
    /// The settings to store.
    Save(ServerSettings),
    /// More roles were named than the settings may list, counting a role
    /// each time it is named: nothing is stored.
    TooMany,
}

/// Why the role `reference` cannot be configured, `None` where it can: it
/// must stand for a role, and the bot and then the person must rank above
/// that role.
pub open spec fn unfit(
    roles: Seq<Role>,
    bot_rank: int,
    person_rank: int,
    person_is_bot: bool,
    reference: Seq<char>,
) -> Option<ErrorView> {
    match resolve(roles, reference) {
        None => Some(ErrorView::InvalidRole(reference)),
        Some(at) => both_refusal(roles, bot_rank, person_rank, person_is_bot, seq![roles[at].id@]),
    }
}

/// `kept` with the role `id` listed: a role that is listed already keeps
/// its place and is not listed again.
pub open spec fn listed(kept: Seq<Seq<char>>, id: Seq<char>) -> Seq<Seq<char>> {
    if kept.contains(id) {
        kept
    } else {
        kept.push(id)
    }
}

/// The roles that a command configures, read from the reference `at` on and
/// added to `kept` one reference at a time. The first reference that is
/// unfit ends the command with its refusal. Every reference counts towards
/// the limit, whether or not its role is listed already: the result is
/// `None` where a reference beyond the limit is fit.
pub open spec fn configure(
    roles: Seq<Role>,
    bot_rank: int,
    person_rank: int,
    person_is_bot: bool,
    references: Seq<Seq<char>>,
    at: int,
    kept: Seq<Seq<char>>,
) -> Result<Option<Seq<Seq<char>>>, ErrorView>
    decreases references.len() - at,
{
    if at < 0 || at >= references.len() {
        Ok(Some(kept))
    } else {
        match unfit(roles, bot_rank, person_rank, person_is_bot, references[at]) {
            Some(error) => Err(error),
            None => if at >= AUTOROLE_LIMIT {
                Ok(None)
            } else {
                configure(
                    roles,
                    bot_rank,
                    person_rank,
                    person_is_bot,
                    references,
                    at + 1,
                    listed(kept, roles[resolve(roles, references[at]).unwrap()].id@),
                )
            },
        }
    }
}

/// What a command that names `references` leads to. The bot must be allowed
/// to assign roles; the person must be allowed to assign roles and to manage
/// the server. A command without references empties the settings.
pub open spec fn command(
    roles: Seq<Role>,
    bot_granted: Permissions,
    person_granted: Permissions,
    bot_rank: int,
    person_rank: int,
    person_is_bot: bool,
    references: Seq<Seq<char>>,
) -> Result<Option<Seq<Seq<char>>>, ErrorView> {
    if !bot_granted.assign_roles {
        Err(ErrorView::Missing(Permission::AssignRoles))
    } else if !person_granted.assign_roles {
        Err(missing(person_is_bot, Permission::AssignRoles))
    } else if !person_granted.manage_server {
        Err(missing(person_is_bot, Permission::ManageServer))
    } else {
        configure(roles, bot_rank, person_rank, person_is_bot, references, 0, Seq::empty())
    }
}

/// Whether `out`, made for the server `id`, is what `wanted` describes.
pub open spec fn is_configured(
    out: Result<Configured, Error>,
    id: Seq<char>,
    wanted: Result<Option<Seq<Seq<char>>>, ErrorView>,
) -> bool {
    match out {
        Ok(Configured::Save(settings)) => settings.id@ == id && wanted == Ok::<
            Option<Seq<Seq<char>>>,
            ErrorView,
        >(Some(texts(settings.auto_roles@))),
        Ok(Configured::TooMany) => wanted == Ok::<Option<Seq<Seq<char>>>, ErrorView>(None),
        Err(error) => wanted == Err::<Option<Seq<Seq<char>>>, ErrorView>(error@),
    }
}

/// What is configured from the reference `at` on is an ordered set within
/// the limit: it begins with `kept`, lists no role twice, and has no more
/// roles than references were read. Roles are configured only where the
/// command has no more references than the limit.
pub proof fn lemma_configure_limit(
    roles: Seq<Role>,
    bot_rank: int,
    person_rank: int,
    person_is_bot: bool,
    references: Seq<Seq<char>>,
    at: int,
    kept: Seq<Seq<char>>,
)
    requires
        0 <= at <= references.len(),
        at <= AUTOROLE_LIMIT,
        kept.len() <= at,
        kept.no_duplicates(),
    ensures
        match configure(roles, bot_rank, person_rank, person_is_bot, references, at, kept) {
            Ok(Some(all)) => {
                &&& references.len() <= AUTOROLE_LIMIT
                &&& all.no_duplicates()
                &&& all.len() <= references.len()
                &&& kept.is_prefix_of(all)
            },
            Ok(None) => references.len() > AUTOROLE_LIMIT,
            Err(_) => true,
        },
    decreases references.len() - at,
{
    if at < references.len() && unfit(roles, bot_rank, person_rank, person_is_bot, references[at])
        is None && at < AUTOROLE_LIMIT {
        let id = roles[resolve(roles, references[at]).unwrap()].id@;
        let more = listed(kept, id);
        lemma_configure_limit(roles, bot_rank, person_rank, person_is_bot, references, at + 1, more);
        match configure(roles, bot_rank, person_rank, person_is_bot, references, at + 1, more) {
            Ok(Some(all)) => {
                assert(kept =~= more.subrange(0, kept.len() as int));
                assert(kept =~= all.subrange(0, kept.len() as int));
            },
            _ => {},
        }
    } else if at == references.len() {
        assert(kept =~= kept.subrange(0, kept.len() as int));
    }
}

/// Where the references from `at` up to the first beyond the limit are all
/// fit, nothing is configured.
pub proof fn lemma_configure_too_many(
    roles: Seq<Role>,
    bot_rank: int,
    person_rank: int,
    person_is_bot: bool,
    references: Seq<Seq<char>>,
    at: int,
    kept: Seq<Seq<char>>,
)
    requires
        0 <= at <= AUTOROLE_LIMIT < references.len(),
        forall|i: int|
            at <= i <= AUTOROLE_LIMIT ==> unfit(
                roles,
                bot_rank,
                person_rank,
                person_is_bot,
                #[trigger] references[i],
            ) is None,
    ensures
        configure(roles, bot_rank, person_rank, person_is_bot, references, at, kept) == Ok::<
            Option<Seq<Seq<char>>>,
            ErrorView,
        >(None),
    decreases AUTOROLE_LIMIT - at,
{
    assert(unfit(roles, bot_rank, person_rank, person_is_bot, references[at]) is None);
    if at < AUTOROLE_LIMIT {
        let id = roles[resolve(roles, references[at]).unwrap()].id@;
        lemma_configure_too_many(
            roles,
            bot_rank,
            person_rank,
            person_is_bot,
            references,
            at + 1,
            listed(kept, id),
        );
    }
}

/// A command stores an ordered set of as many roles as the limit allows, at
/// most: where it gives roles to store, it named no more references than the
/// limit, and no role is stored twice. A command of more references than the
/// limit stores nothing: it is refused for the first unfit reference among
/// those up to the first beyond the limit, or, where all of these are fit,
/// for their number.
pub proof fn lemma_command_limit(
    roles: Seq<Role>,
    bot_granted: Permissions,
    person_granted: Permissions,
    bot_rank: int,
    person_rank: int,
    person_is_bot: bool,
    references: Seq<Seq<char>>,
)
    ensures
        match command(
            roles,
            bot_granted,
            person_granted,
            bot_rank,
            person_rank,
            person_is_bot,
            references,
        ) {
            Ok(Some(all)) => {
                &&& references.len() <= AUTOROLE_LIMIT
                &&& all.no_duplicates()
                &&& all.len() <= references.len()
            },
            Ok(None) => references.len() > AUTOROLE_LIMIT,
            Err(_) => true,
        },
        references.len() > AUTOROLE_LIMIT && bot_granted.assign_roles && person_granted.assign_roles
            && person_granted.manage_server && (forall|i: int|
            0 <= i <= AUTOROLE_LIMIT ==> unfit(
                roles,
                bot_rank,
                person_rank,
                person_is_bot,
                #[trigger] references[i],
            ) is None) ==> command(
            roles,
            bot_granted,
            person_granted,
            bot_rank,
            person_rank,
            person_is_bot,
            references,
        ) == Ok::<Option<Seq<Seq<char>>>, ErrorView>(None),
{
    let none = Seq::<Seq<char>>::empty();
    lemma_configure_limit(roles, bot_rank, person_rank, person_is_bot, references, 0, none);
    if references.len() > AUTOROLE_LIMIT && (forall|i: int|
        0 <= i <= AUTOROLE_LIMIT ==> unfit(
            roles,
            bot_rank,
            person_rank,
            person_is_bot,
            #[trigger] references[i],
        ) is None) {
        lemma_configure_too_many(roles, bot_rank, person_rank, person_is_bot, references, 0, none);
    }
}

/// Checks that `reference` can be configured and gives the identifier of the
/// role that it stands for.
fn fit_role(server: &Server, bot: &Member, person: &Member, reference: &str) -> (out: Result<
    String,
    Error,
>)
    ensures
        match out {
            Ok(id) => {
                &&& unfit(
                    server.roles@,
                    lowest_rank(server.roles@, role_set(bot.roles@)),
                    lowest_rank(server.roles@, role_set(person.roles@)),
                    person.user_id@ == bot.user_id@,
                    reference@,
                ) is None
                &&& resolve(server.roles@, reference@) matches Some(at)
                &&& id@ == server.roles@[at].id@
            },
            Err(error) => unfit(
                server.roles@,
                lowest_rank(server.roles@, role_set(bot.roles@)),
                lowest_rank(server.roles@, role_set(person.roles@)),
                person.user_id@ == bot.user_id@,
                reference@,
            ) == Some(error@),
        },
{
    let role = match server.role_by_id_or_name(reference) {
        Some(role) => role,
        None => {
            return Err(Error::InvalidRole(String::from_str(reference)));
        },
    };
    let my_id = bot.user_id.as_str();
    proof {
        reveal_with_fuel(first_refusal, 2);
        assert(seq![role.id@].drop_first().len() == 0);
    }
    match check_above_role(server, bot, my_id, role.id.as_str()) {
        Err(error) => {
            return Err(error);
        },
        Ok(_) => {},
    }
    match check_above_role(server, person, my_id, role.id.as_str()) {
        Err(error) => Err(error),
        Ok(_) => Ok(role.id.clone()),
    }
}

/// What the command of `person` to configure the roles named by
/// `references` leads to.
pub fn autorole_command(
    server: &Server,
    bot: &Member,
    bot_granted: &Permissions,
    person: &Member,
    person_granted: &Permissions,
    references: &[String],
) -> (out: Result<Configured, Error>)
    ensures
        is_configured(
            out,
            server.id@,
            command(
                server.roles@,
                *bot_granted,
                *person_granted,
                lowest_rank(server.roles@, role_set(bot.roles@)),
                lowest_rank(server.roles@, role_set(person.roles@)),
                person.user_id@ == bot.user_id@,
                texts(references@),
            ),
        ),
        out matches Ok(Configured::Save(settings)) ==> settings.auto_roles@.len() <= AUTOROLE_LIMIT
            && texts(settings.auto_roles@).no_duplicates() && references@.len() <= AUTOROLE_LIMIT,
        out matches Ok(Configured::TooMany) ==> references@.len() > AUTOROLE_LIMIT,
{
    let my_id = bot.user_id.as_str();
    if !bot_granted.has(Permission::AssignRoles) {
        return Err(Error::Missing(Permission::AssignRoles));
    }
    let wanted = [Permission::AssignRoles, Permission::ManageServer];
    proof {
        reveal_with_fuel(first_missing, 3);
        assert(wanted@.len() == 2);
        assert(wanted@[0] == Permission::AssignRoles);
        assert(wanted@[1] == Permission::ManageServer);
        assert(wanted@.drop_first().len() == 1);
        assert(wanted@.drop_first()[0] == Permission::ManageServer);
        assert(wanted@.drop_first().drop_first().len() == 0);
    }
    match check_server_perms(person_granted, person.user_id.as_str(), my_id, wanted.as_slice()) {
        Err(error) => {
            return Err(error);
        },
        Ok(_) => {},
    }
    let ghost bot_rank = lowest_rank(server.roles@, role_set(bot.roles@));
    let ghost person_rank = lowest_rank(server.roles@, role_set(person.roles@));
    let ghost person_is_bot = person.user_id@ == bot.user_id@;
    let ghost all = texts(references@);
    let mut kept: Vec<String> = Vec::new();
    let mut i: usize = 0;
    assert(texts(kept@) =~= Seq::<Seq<char>>::empty());
    while i < references.len()
        invariant
            i <= references.len(),
            i <= AUTOROLE_LIMIT,
            all == texts(references@),
            bot_rank == lowest_rank(server.roles@, role_set(bot.roles@)),
            person_rank == lowest_rank(server.roles@, role_set(person.roles@)),
            person_is_bot == (person.user_id@ == bot.user_id@),
            kept@.len() <= i,
            texts(kept@).no_duplicates(),
            bot_granted.assign_roles,
            person_granted.assign_roles,
            person_granted.manage_server,
            configure(server.roles@, bot_rank, person_rank, person_is_bot, all, 0, Seq::empty())
                == configure(
                server.roles@,
                bot_rank,
                person_rank,
                person_is_bot,
                all,
                i as int,
                texts(kept@),
            ),
        decreases references.len() - i,
    {
        let id = match fit_role(server, bot, person, references[i].as_str()) {
            Err(error) => {
                return Err(error);
            },
            Ok(id) => id,
        };
        if i >= AUTOROLE_LIMIT {
            return Ok(Configured::TooMany);
        }
        if !has_role(&kept, &id) {
            let ghost before = texts(kept@);
            kept.push(id);
            assert(texts(kept@) =~= before.push(id@));
        }
        i += 1;
    }
    Ok(Configured::Save(ServerSettings { id: server.id.clone(), auto_roles: kept }))
}

} // verus!
