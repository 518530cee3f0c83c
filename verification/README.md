# junqi

A two-player networked game of Junqi (Chinese army chess, the face-down
variant), with its rules, wire protocol and client logic verified in Verus.

## Layout

- `src/` — the verified library.
  - `types.rs`: camps, ranks, pieces, snapshots, and their one-letter codes.
  - `board.rs`: the 12 × 5 board, its camps and railway, the start cells and
    the lines drawn between cells.
  - `rules.rs`: battles, and the path a piece may take (one road step, a
    straight railway run, or an engineer's shortest railway run found by
    breadth-first search).
  - `text.rs`: the character-level pieces of the line protocol: splitting on
    whitespace, trimming, decimal numbers.
  - `protocol.rs`: encoding and decoding of the lines that clients and server
    exchange, with round-trip laws.
  - `game.rs`: the server's game state, every command's effect or refusal,
    and a new shuffled game (through `rand`).
  - `client.rs`: what a client does with server messages and clicks.
- `app/` — the unverified programs around the library: `junqi server`
  (TCP, threads) and `junqi client` (bevy drawing and input).
- `tests/` — tests of the library on concrete values.
