//! Membership roles and API token scopes.

use vstd::prelude::*;

use crate::text::{chars_of, compare_chars};

verus! {

/// A user's role within a tenant. Ordered by privilege.
#[derive(Debug, Clone, Copy, PartialEq, Eq, Structural, Hash, PartialOrd, Ord)]
pub enum Role {
    Reader,
    Editor,
    Admin,
}

/// Permission carried by an API token.
#[derive(Debug, Clone, Copy, PartialEq, Eq, Structural, Hash, PartialOrd, Ord)]
pub enum Scope {
    Read,
    Write,
    Admin,
}

/// A name that is not one of an enumeration's values.
#[derive(Debug)]
pub struct ParseEnumError {
    kind: &'static str,
    value: String,
}

impl ParseEnumError {
    /// What was being parsed.
    pub closed spec fn kind_text(&self) -> Seq<char> {
        self.kind@
    }

    /// The refused text.
    pub closed spec fn value_text(&self) -> Seq<char> {
        self.value@
    }

    pub(crate) fn new(kind: &'static str, value: &str) -> (e: ParseEnumError)
        ensures
            e.kind_text() == kind@,
            e.value_text() == value@,
    {
        ParseEnumError { kind, value: String::from_str(value) }
    }

    /// What was being parsed, e.g. `role`.
    pub fn kind(&self) -> (s: &'static str)
        ensures
            s@ == self.kind_text(),
    {
        self.kind
    }

    /// The text that was refused.
    pub fn value(&self) -> (s: &str)
        ensures
            s@ == self.value_text(),
    {
        self.value.as_str()
    }

    /// The message: `unknown <kind> "<value>"`.
    pub fn to_string(&self) -> (s: String)
        ensures
            s@ == "unknown "@ + self.kind_text() + " "@ + crate::text::debug_quoted(self.value_text()),
    {
        let mut s = String::from_str("unknown ");
        s.append(self.kind);
        s.append(" ");
        s.append(crate::text::quoted(self.value.as_str()).as_str());
        s
    }
}

/// Whether `a` and `b` hold the same characters.
pub fn str_eq(a: &str, b: &str) -> (r: bool)
    ensures
        r == (a@ == b@),
{
    compare_chars(&chars_of(a), &chars_of(b)) == 0
}

/// Privilege order: readers below editors below admins.
pub open spec fn role_rank(r: Role) -> nat {
    match r {
        Role::Reader => 0,
        Role::Editor => 1,
        Role::Admin => 2,
    }
}

/// Scopes are hierarchical: read below write below admin.
pub open spec fn scope_rank(s: Scope) -> nat {
    match s {
        Scope::Read => 0,
        Scope::Write => 1,
        Scope::Admin => 2,
    }
}

pub open spec fn role_text(r: Role) -> Seq<char> {
    match r {
        Role::Reader => "reader"@,
        Role::Editor => "editor"@,
        Role::Admin => "admin"@,
    }
}

pub open spec fn scope_text(s: Scope) -> Seq<char> {
    match s {
        Scope::Read => "read"@,
        Scope::Write => "write"@,
        Scope::Admin => "admin"@,
    }
}

impl Role {
    pub fn as_str(self) -> (s: &'static str)
        ensures
            s@ == role_text(self),
    {
        match self {
            Role::Reader => "reader",
            Role::Editor => "editor",
            Role::Admin => "admin",
        }
    }

    /// Parses `reader`, `editor` or `admin`.
    pub fn parse(s: &str) -> (r: Result<Role, ParseEnumError>)
        ensures
            match r {
                Ok(role) => role_text(role) == s@,
                Err(e) => (forall|x: Role| role_text(x) != s@) && e.kind_text() == "role"@ && e.value_text() == s@,
            },
    {
        if str_eq(s, "reader") {
            Ok(Role::Reader)
        } else if str_eq(s, "editor") {
            Ok(Role::Editor)
        } else if str_eq(s, "admin") {
            Ok(Role::Admin)
        } else {
            assert forall|x: Role| role_text(x) != s@ by {
                match x {
                    Role::Reader => {},
                    Role::Editor => {},
                    Role::Admin => {},
                }
            }
            Err(ParseEnumError::new("role", s))
        }
    }

    pub fn can_write(self) -> (b: bool)
        ensures
            b == (role_rank(self) >= role_rank(Role::Editor)),
    {
        match self {
            Role::Reader => false,
            _ => true,
        }
    }

    pub fn can_admin(self) -> (b: bool)
        ensures
            b == (self == Role::Admin),
    {
        match self {
            Role::Admin => true,
            _ => false,
        }
    }
}

impl Scope {
    pub fn as_str(self) -> (s: &'static str)
        ensures
            s@ == scope_text(self),
    {
        match self {
            Scope::Read => "read",
            Scope::Write => "write",
            Scope::Admin => "admin",
        }
    }

    /// Parses `read`, `write` or `admin`.
    pub fn parse(s: &str) -> (r: Result<Scope, ParseEnumError>)
        ensures
            match r {
                Ok(scope) => scope_text(scope) == s@,
                Err(e) => (forall|x: Scope| scope_text(x) != s@) && e.kind_text() == "scope"@ && e.value_text() == s@,
            },
    {
        if str_eq(s, "read") {
            Ok(Scope::Read)
        } else if str_eq(s, "write") {
            Ok(Scope::Write)
        } else if str_eq(s, "admin") {
            Ok(Scope::Admin)
        } else {
            assert forall|x: Scope| scope_text(x) != s@ by {
                match x {
                    Scope::Read => {},
                    Scope::Write => {},
                    Scope::Admin => {},
                }
            }
            Err(ParseEnumError::new("scope", s))
        }
    }

    /// Whether a token holding `self` satisfies `required`. Scopes are hierarchical.
    pub fn allows(self, required: Scope) -> (b: bool)
        ensures
            b == (scope_rank(self) >= scope_rank(required)),
    {
        match (self, required) {
            (Scope::Admin, _) => true,
            (Scope::Write, Scope::Read) | (Scope::Write, Scope::Write) => true,
            (Scope::Read, Scope::Read) => true,
            _ => false,
        }
    }
}

/// Every role and scope parses back from its name.
pub proof fn lemma_names_round_trip(r: Role, s: Scope)
    ensures
        forall|x: Role| role_text(x) == role_text(r) ==> x == r,
        forall|x: Scope| scope_text(x) == scope_text(s) ==> x == s,
{
    reveal_strlit("reader");
    reveal_strlit("editor");
    reveal_strlit("admin");
    reveal_strlit("read");
    reveal_strlit("write");
    assert("reader"@[0] != "editor"@[0]);
    assert("reader"@ != "editor"@);
    assert("reader"@.len() != "admin"@.len());
    assert("reader"@ != "admin"@);
    assert("editor"@ != "admin"@);
    assert("read"@.len() != "write"@.len());
    assert("read"@ != "write"@);
    assert("read"@ != "admin"@);
    assert("write"@[0] != "admin"@[0]);
    assert("write"@ != "admin"@);
}

} // verus!
