# smrt

The verified core of a self-hostable Minecraft mod mirror and pack registry.

`src/` is the library, written in Verus: every function carries a contract
and is proved against it. It holds what the mirror decides and computes once
the rows are out of the database and the request is read -- the checks its
endpoints make before writing, the text it writes out (the Atom feed, the
GitHub release address, the messages a refusal carries), the order it lists
Minecraft versions and graph worlds in, the state of a build job and the id
it is known by -- together with the laws these keep.

- `admin`, `authored`, `revision`: the operator and authoring endpoints'
  decisions: addresses, reasons, proposals, optimistic concurrency on config
  saves, what an authored write accepts, how folding one mod into another
  treats its releases.
- `jobs`, `notes`: build jobs and their release notes.
- `queries`, `releases`, `graph`, `cache`: what the registry's reads
  compute: version order, search escapes, display names, facets, a mod's
  releases, graph worlds and edges, the cache listing and content addresses.
- `public`, `events`: the feed, content types, which answers stay
  unencoded, and what the live event stream carries of a document edit.
- `text`, `number`, `order`, `textmap`, `json`, `error`: the shared pieces.

`app/` is the server around it: wire forms with serde derives, and the HTTP
edges. `tests/` exercises the library from outside.
