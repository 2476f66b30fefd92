# cch23

A web service for the Christmas code-hunt puzzles, split in two:

- `src/` is the library, written in Verus. It holds what each endpoint
  computes: number paths and XOR cubes, reindeer contests, elf counting,
  cookie recipes and baking, packet timing and ULID statistics, HTML pages,
  the password games, chat rooms and the ping game, tar archives and the
  search for the cookie commit, the region query text and S2 cell ids. Each
  public function carries a contract, and the laws that relate calls (loading
  after saving, leaving after joining, the answers of the ping game, the
  maximality of baking) are proof functions.
- `app/` is the axum server around it: routing, request extraction, the
  Postgres queries, web sockets, outside web services and the floating point
  work (speeds, weights, coordinates). It converts requests into the
  library's plain types and calls the library.

Calls into outside crates that the library makes (base64, ulid, uuid, chrono,
regex, sha256, image, tar, askama) go through small trusted wrappers whose
contracts are stated next to them.

`tests/` exercises the library on concrete inputs.
