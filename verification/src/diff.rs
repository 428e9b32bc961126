//! Line diffs.

use vstd::prelude::*;

verus! {

/// Lines of context around each change.
pub const CONTEXT_LINES: usize = 3;

/// The unified diff that `similar` computes with the patience algorithm, `context`
/// lines of context and the given header labels.
pub uninterp spec fn patience_unified_diff(
    old: Seq<char>,
    new: Seq<char>,
    context: usize,
    old_label: Seq<char>,
    new_label: Seq<char>,
) -> Seq<char>;

/// Calls `similar::udiff::unified_diff` with `Algorithm::Patience`; the contract names
/// the result.
#[verifier::external_body]
fn patience_diff(old: &str, new: &str, context: usize, old_label: &str, new_label: &str) -> (r: String)
    ensures
        r@ == patience_unified_diff(old@, new@, context, old_label@, new_label@),
{
    similar::udiff::unified_diff(similar::Algorithm::Patience, old, new, context, Some((old_label, new_label)))
}

/// What [`unified`] returns.
pub open spec fn unified_of(old: Seq<char>, new: Seq<char>, old_label: Seq<char>, new_label: Seq<char>) -> Seq<char> {
    if old == new {
        seq![]
    } else {
        patience_unified_diff(old, new, CONTEXT_LINES, old_label, new_label)
    }
}

/// Unified diff of `old` → `new` with 3 lines of context. Empty when equal.
pub fn unified(old: &str, new: &str, old_label: &str, new_label: &str) -> (r: String)
    ensures
        r@ == unified_of(old@, new@, old_label@, new_label@),
{
    if crate::auth::str_eq(old, new) {
        return String::new();
    }
    patience_diff(old, new, CONTEXT_LINES, old_label, new_label)
}

} // verus!
