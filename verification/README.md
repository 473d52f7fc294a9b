# tinyskills

A host-independent library for agentskills.io-style skill bundles, written in
Verus: the functions under `src/` carry contracts that Verus proves. The few
calls into `sha2`, `url` and parts of std go through small trusted wrappers
whose contracts state what those crates document.

- `src/document.rs`: splitting a `SKILL.md`/`WORKFLOW.md` document into
  frontmatter and body, and normalizing the metadata into a `Skill`.
- `src/discovery.rs`: directory filters, manifest choice, and collision
  resolution across scopes (skills are taken by descending precedence, so the
  surviving skills do not depend on the order of the roots, while warnings
  say which copy arrived first; results sorted by name).
- `src/resource.rs`: skill lookup by id or name, and the policy for reading
  bundled resources (relative paths only, no symlinks, size and UTF-8 limits).
- `src/resource_read.rs`: reading one resource as a state machine that the
  filesystem driver runs; a law shows that only files within the canonical
  skill root, reached through no symlink, are ever read.
- `src/bundle.rs`: validation, digests and reports for bundles compiled into a
  host binary.
- `src/materialize.rs`: installing one bundle as a state machine whose steps
  the filesystem driver carries out; laws show that an invalid bundle is never
  touched and that a failed publish asks for the old copy to be restored.
- `src/install.rs`: install URL normalization, slugs, and host checks.
- `src/text.rs`, `src/model.rs`: string helpers and the data model.

`app/` holds what needs the outside world: walking and reading the
filesystem, YAML and JSON decoding with serde, and DNS lookups with tokio. It
hands plain values to the library, which makes the decisions.
