# uno

A UNO rules library written in Verus: every function in `src/` carries a
contract, and Verus proves the code against it.

## Layout

- `src/local_core/`: the local engine with the Holiday deck variant. Cards and
  decks, player draw rules, dealing, turns, number batches, plus chains, the
  seven/zero hand exchanges, the discard wilds, factorial and square-root wilds,
  paging of large hands, the laws the rules promise (`laws.rs`), and the
  proof that the plus-batch planner finds the longest batch (`plan_laws.rs`).
- `src/uno_core.rs`: the classic engine used over the network, with an event
  log that is applied exactly once per sequence number.
- `src/uno_protocol.rs`, `src/protocol_laws.rs`: the text wire format (messages,
  commands, members, share strings, percent-escaping) and proofs that cards,
  commands, share strings and every message kind but events and disconnects
  read back as written. For events the proof is conditional: the room and
  sequence number come back when the kind's debug text holds no `|`, which is
  the standard library's text and is not stated.
- `src/uno_room.rs`: rooms, their members, the active and standby hosts, and
  replicated state.
- `src/uno_net.rs`: the reliable-delivery queue, the STUN binding exchange and
  the join handshake's decisions.
- `src/cli.rs`: command-line options and the interactive session's commands.
- `src/card_art.rs`: card faces drawn pixel by pixel into an `image` buffer.
- `src/text.rs`: string helpers shared by the modules above.
- `app/`: the `uno` program, which owns sockets, the terminal and the clock.
- `tests/`: tests of the library on concrete values.

Randomness comes from `rand` and pixels are stored by `image`; both are called
through small wrappers in `src/` whose contracts say what the library relies on.
