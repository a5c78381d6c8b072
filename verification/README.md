# miniraft

The building blocks of a [Raft](https://raft.github.io/raft.pdf) node that serves a key-value
workload (read, write, compare-and-swap), written in [Verus](https://github.com/verus-lang/verus):
what each function does is stated in its contract, and proved.

- `src/`: the verified library.
  - `base64`, `utf8`, `decimal`, `words`, `text`: text and numbers.
  - `json`: values, parser, printer, differences, and conversions. What is printed parses back.
    `locality` holds what errors depend on, `diff_laws` what differences are.
  - `serde`, `domain`: a compact binary format, and a node's state in it.
  - `kv`: the store.
  - `maelstrom`: messages for the [Maelstrom](https://github.com/jepsen-io/maelstrom) workbench,
    and a single node with a store.
  - `raft`: nodes that agree.
    - `model` says what becomes of a node on each event; `state` and `engine` do just that. The
      engine holds responses until what they rest on is persisted.
    - `laws` holds what is true of a node whatever happens to it.
    - `cluster` holds what is true of a cluster whatever happens on its network: election
      safety and log matching.
    - `completeness` and `safety` hold what follows where messages arrive in due order, as far
      as it matters: leader completeness, state machine safety, and that the order in which
      commands are applied respects time.
    - `rpc`, `command`, `persistence`, `serde`: what goes over the wire and to disk, and reads back.
    - `http`, `metrics`, `maelstrom`, `node`: everything around it, as far as it computes.
- `tests/`: the library at work.
- `app/`: the programs: files, sockets, threads, the clock, and chance.
