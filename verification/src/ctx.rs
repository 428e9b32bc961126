//! Who is calling, and what they may do.

use vstd::prelude::*;

use crate::auth::{role_rank, scope_rank, Role, Scope};
use crate::ids::{ProjectId, TokenId, UserId};

verus! {

/// The authenticated caller within one tenant.
#[derive(Debug, Clone, PartialEq, Eq)]
pub enum Actor {
    User { id: UserId, role: Role },
    /// `project`: when set, the token may access only that project (and read its
    /// ancestors through inheritance).
    Token { id: TokenId, scopes: Vec<Scope>, project: Option<ProjectId> },
    /// CLI and internal jobs. Unrestricted.
    System,
}

/// A level of access, from reading up to administering.
#[derive(Debug, Clone, Copy, PartialEq, Eq, Structural, PartialOrd, Ord)]
pub enum Access {
    Read,
    Write,
    Admin,
}

/// Who wrote a revision.
#[derive(Debug, Clone, Copy, PartialEq, Eq, Structural)]
pub enum Author {
    User(UserId),
    Token(TokenId),
    System,
}

/// The token scope that grants `access`.
pub open spec fn scope_for(access: Access) -> Scope {
    match access {
        Access::Read => Scope::Read,
        Access::Write => Scope::Write,
        Access::Admin => Scope::Admin,
    }
}

/// Whether `actor` may have `access` to `project`, or tenant-wide when `project` is
/// `None`. Users go by their role; tokens by their scopes, and a token bound to a
/// project only reaches that project.
pub open spec fn actor_allows(actor: Actor, access: Access, project: Option<ProjectId>) -> bool {
    match actor {
        Actor::System => true,
        Actor::User { role, .. } => match access {
            Access::Read => true,
            Access::Write => role_rank(role) >= role_rank(Role::Editor),
            Access::Admin => role == Role::Admin,
        },
        Actor::Token { scopes, project: restricted, .. } => {
            &&& match restricted {
                None => true,
                Some(r) => project == Some(r),
            }
            &&& exists|i: int| 0 <= i < scopes@.len() && scope_rank(#[trigger] scopes@[i]) >= scope_rank(scope_for(access))
        },
    }
}

impl Actor {
    /// Whether this caller may have `access` to `project` (tenant-wide when `None`).
    #[verifier::loop_isolation(false)]
    pub fn allows(&self, access: Access, project: Option<ProjectId>) -> (b: bool)
        ensures
            b == actor_allows(*self, access, project),
    {
        match self {
            Actor::System => true,
            Actor::User { role, .. } => match access {
                Access::Read => true,
                Access::Write => role.can_write(),
                Access::Admin => role.can_admin(),
            },
            Actor::Token { scopes, project: restricted, .. } => {
                let scope = match access {
                    Access::Read => Scope::Read,
                    Access::Write => Scope::Write,
                    Access::Admin => Scope::Admin,
                };
                let project_ok = match restricted {
                    None => true,
                    Some(r) => match project {
                        Some(p) => p.0 == r.0,
                        None => false,
                    },
                };
                if !project_ok {
                    return false;
                }
                let mut i: usize = 0;
                while i < scopes.len()
                    invariant
                        0 <= i <= scopes@.len(),
                        scope == scope_for(access),
                        match *restricted {
                            None => true,
                            Some(r) => project == Some(r),
                        },
                        forall|k: int| 0 <= k < i ==> scope_rank(#[trigger] scopes@[k]) < scope_rank(scope),
                    decreases scopes@.len() - i,
                {
                    if scopes[i].allows(scope) {
                        assert(scope_rank(scopes@[i as int]) >= scope_rank(scope_for(access)));
                        return true;
                    }
                    i += 1;
                }
                false
            },
        }
    }

    /// Checks `access` on `project`, or tenant-wide when `project` is `None`.
    pub fn require(&self, access: Access, project: Option<ProjectId>) -> (r: Result<(), crate::error::AppError>)
        ensures
            r is Ok <==> actor_allows(*self, access, project),
            r is Err ==> r == Err::<(), crate::error::AppError>(crate::error::AppError::Forbidden),
    {
        if self.allows(access, project) {
            Ok(())
        } else {
            Err(crate::error::AppError::Forbidden)
        }
    }

    /// The project a restricted token is bound to.
    pub fn restricted_project(&self) -> (p: Option<ProjectId>)
        ensures
            p == match *self {
                Actor::Token { project, .. } => project,
                _ => None,
            },
    {
        match self {
            Actor::Token { project, .. } => *project,
            _ => None,
        }
    }

    /// The author recorded for this caller's writes.
    pub fn author(&self) -> (a: Author)
        ensures
            a == match *self {
                Actor::User { id, .. } => Author::User(id),
                Actor::Token { id, .. } => Author::Token(id),
                Actor::System => Author::System,
            },
    {
        match self {
            Actor::User { id, .. } => Author::User(*id),
            Actor::Token { id, .. } => Author::Token(*id),
            Actor::System => Author::System,
        }
    }

    pub fn user_id(&self) -> (u: Option<UserId>)
        ensures
            u == match *self {
                Actor::User { id, .. } => Some(id),
                _ => None,
            },
    {
        match self {
            Actor::User { id, .. } => Some(*id),
            _ => None,
        }
    }
}

/// A token bound to a project reaches no other project, and nothing tenant-wide.
pub proof fn lemma_restricted_token_confined(
    id: TokenId,
    scopes: Vec<Scope>,
    bound: ProjectId,
    access: Access,
    project: Option<ProjectId>,
)
    ensures
        actor_allows(Actor::Token { id, scopes, project: Some(bound) }, access, project) ==> project == Some(bound),
{
}

/// Access levels nest: whoever may administer may write, and whoever may write may read.
pub proof fn lemma_access_nested(actor: Actor, project: Option<ProjectId>)
    ensures
        actor_allows(actor, Access::Admin, project) ==> actor_allows(actor, Access::Write, project),
        actor_allows(actor, Access::Write, project) ==> actor_allows(actor, Access::Read, project),
{
    match actor {
        Actor::Token { scopes, .. } => {
            if actor_allows(actor, Access::Admin, project) {
                let i = choose|i: int| 0 <= i < scopes@.len() && scope_rank(#[trigger] scopes@[i]) >= scope_rank(scope_for(Access::Admin));
                assert(scope_rank(scopes@[i]) >= scope_rank(scope_for(Access::Write)));
            }
            if actor_allows(actor, Access::Write, project) {
                let i = choose|i: int| 0 <= i < scopes@.len() && scope_rank(#[trigger] scopes@[i]) >= scope_rank(scope_for(Access::Write));
                assert(scope_rank(scopes@[i]) >= scope_rank(scope_for(Access::Read)));
            }
        },
        _ => {},
    }
}

} // verus!
