//! Solidate's domain logic: validated document paths and slugs, link and include
//! targets, content hashing, Markdown analysis, transclusion, inheritance and
//! human/AI sync tracking, with the rules of the service layer around them.

pub mod accounts;
pub mod args;
pub mod auth;
pub mod ctx;
pub mod diff;
pub mod documents;
pub mod error;
pub mod files;
pub mod hash;
pub mod ids;
pub mod transclude;
pub mod inherit;
pub mod links;
pub mod markdown;
pub mod models;
pub mod oidc;
pub mod path;
pub mod proposals;
pub mod status;
pub mod sync;
pub mod text;
