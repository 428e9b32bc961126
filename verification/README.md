# solidate

The document model of Solidate, a wiki-style knowledge base whose documents come
in two variants, one for people and one for AI tools, kept in step section by
section. The library is written in Verus: every function states its behaviour in
`requires`/`ensures` and is proved against it, except the small trusted wrappers
(marked `#[verifier::external_body]`) that call Comrak, BLAKE3, `similar`,
`subtle`, `getrandom`, Argon2 and a few `std` character and string functions.
Their contracts are assumed, not proved, and their doc comments say what they
claim.

## Layout

- `src/` — the verified library.
  - `path`, `links`, `files`: document paths, project slugs, link and include
    targets, the mapping between documents and Markdown files, and the order
    in which a directory's files are imported.
  - `markdown`: analysis on top of Comrak — sections with stable, distinct
    anchors, titles, links, includes, semantic hashes.
  - `hash`: BLAKE3 content hashes, hex form, and the order-independent Merkle
    root of a project tree.
  - `sync`, `status`: the human/AI sync state of each section pair, plans,
    reconciliation, queues and sync items.
  - `transclude`: `{{include project:path#anchor}}` expansion with cycle and depth
    limits, and the resolved hash over included content.
  - `inherit`: project inheritance — nearest definition wins, settings merge
    down the chain.
  - `documents`, `proposals`, `accounts`, `auth`, `ctx`, `oidc`, `args`, `error`,
    `models`: write preconditions, effective project trees, translation
    proposals, passwords and API tokens, roles and scopes, access decisions,
    sign-in mapping, tool arguments and error messages.
  - `text`: character-sequence helpers shared by the modules above.
- `tests/` — tests of the library's public functions.
- `app/` — a command-line front end: scans a directory of Markdown files, renders
  HTML through Comrak's render plugins, diffs files, pairs sections for sync and
  merges JSON settings. It also holds the per-token rate limiter.
