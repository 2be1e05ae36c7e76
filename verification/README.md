# npk manifests, verified

The manifest of a container package: its name, version, init and
arguments, cgroups, and the `mounts` table. The library in `src/` is
verified with Verus; `app/` reads and writes manifests as YAML with serde and
leaves every rule of the format to the library.

- `src/mounts.rs`: how each entry of `mounts` becomes a mount (`/dev` only
  for the dev mount, one persist entry, resources, no two entries on the
  same path), how mounts are written back, and `MountTable`, the mount
  table of a manifest, valid by its type invariant and compared as a map.
- `src/keys.rs`: key-value tables (environment, seccomp), each key once,
  compared as maps.
- `src/resource.rs`: the resource references `name:major.minor.patch/dir`,
  found as leftmost-first search finds them.
- `src/tmpfs.rs`: tmpfs sizes such as `100k`.
- `src/version.rs`, `src/order.rs`: semver versions, their text (which
  reads back as the same version), equality and precedence.
- `src/chain.rs`: the texts on which the semver parser panics (a run of
  more than 255 hyphen-joined identifiers that it reaches), told apart
  exactly.
- `src/path.rs`: paths compared by components.
- `src/manifest.rs`: the manifest, its own check and its equality.
- `src/roundtrip.rs`: every table read is valid, and writing a valid table
  and reading it back gives it unchanged.
