use solidate::auth::{Role, Scope};
use solidate::ctx::{Access, Actor, Author};
use solidate::error::AppError;
use solidate::ids::{ProjectId, TokenId, UserId};

#[test]
fn users_go_by_role() {
    let reader = Actor::User { id: UserId(1), role: Role::Reader };
    let editor = Actor::User { id: UserId(2), role: Role::Editor };
    let admin = Actor::User { id: UserId(3), role: Role::Admin };
    assert!(reader.allows(Access::Read, None));
    assert!(!reader.allows(Access::Write, Some(ProjectId(9))));
    assert!(editor.allows(Access::Write, None));
    assert!(!editor.allows(Access::Admin, None));
    assert!(admin.allows(Access::Admin, Some(ProjectId(9))));
    assert_eq!(reader.require(Access::Write, None), Err(AppError::Forbidden));
    assert_eq!(editor.author(), Author::User(UserId(2)));
    assert_eq!(editor.user_id(), Some(UserId(2)));
    assert_eq!(editor.restricted_project(), None);
}

#[test]
fn tokens_go_by_scope_and_project() {
    let t = Actor::Token { id: TokenId(7), scopes: vec![Scope::Write], project: Some(ProjectId(1)) };
    assert!(t.allows(Access::Read, Some(ProjectId(1))));
    assert!(t.allows(Access::Write, Some(ProjectId(1))));
    assert!(!t.allows(Access::Admin, Some(ProjectId(1))));
    assert!(!t.allows(Access::Read, Some(ProjectId(2))));
    assert!(!t.allows(Access::Read, None));
    assert_eq!(t.restricted_project(), Some(ProjectId(1)));
    assert_eq!(t.author(), Author::Token(TokenId(7)));
    assert_eq!(t.user_id(), None);
    let open = Actor::Token { id: TokenId(8), scopes: vec![], project: None };
    assert!(!open.allows(Access::Read, None));
    let admin = Actor::Token { id: TokenId(9), scopes: vec![Scope::Read, Scope::Admin], project: None };
    assert!(admin.allows(Access::Admin, Some(ProjectId(5))));
    assert!(Actor::System.allows(Access::Admin, None));
    assert_eq!(Actor::System.author(), Author::System);
    assert_eq!(Actor::System.require(Access::Admin, None), Ok(()));
}

#[test]
fn roles_and_scopes_round_trip() {
    for r in [Role::Reader, Role::Editor, Role::Admin] {
        assert_eq!(Role::parse(r.as_str()).unwrap(), r);
    }
    for s in [Scope::Read, Scope::Write, Scope::Admin] {
        assert_eq!(Scope::parse(s.as_str()).unwrap(), s);
        assert!(Scope::Admin.allows(s));
    }
    assert!(!Scope::Read.allows(Scope::Write));
    let e = Role::parse("owner").unwrap_err();
    assert_eq!((e.kind(), e.value()), ("role", "owner"));
    assert_eq!(e.to_string(), "unknown role \"owner\"");
    assert!(Role::Editor.can_write() && !Role::Editor.can_admin());
}

#[test]
fn error_messages() {
    assert_eq!(AppError::NotFound.to_string(), "not found");
    assert_eq!(AppError::Unauthorized.to_string(), "authentication required");
    assert_eq!(AppError::PreconditionFailed { current: None }.to_string(), "precondition failed");
    assert_eq!(AppError::RateLimited { retry_after_secs: 42 }.to_string(), "rate limit exceeded; retry in 42 s");
    assert_eq!(AppError::AlreadyExists("x".into()).to_string(), "already exists: x");
    assert_eq!(AppError::Internal("y".into()).to_string(), "internal error: y");
    assert_eq!(solidate::error::invalid("z"), AppError::Invalid("z".into()));
}
