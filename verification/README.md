# claimdag

Compare-and-swap claim and complete over a dependency DAG, with every rule
stated as a contract and proved with Verus.

One in-process graph, one mutator. Ids are 128-bit `WorkId`s; kind, status and
role are closed enums; the summary is the only open text field. A claim is a
compare-and-swap on the node's generation, a finished node stays finished,
archiving is a flag on finished work, and a dependency is a hard one.

## Layout

- `src/` — the verified library.
  - `id`, `work`, `text`: ids and their hex form, the node's enums, and the
    character-level helpers everything else builds on.
  - `model`, `graph`: the graph's mathematical model (`GraphView`) and
    `WorkGraph`, whose every operation is specified over it.
    Nodes are held in a vector with distinct ids rather than a hash map:
    the proofs walk the nodes in one fixed order (listing, depth, pruning,
    the snapshot) and look nodes up by a `WorkId`, a two-field struct whose
    derived hashing the verifier does not reason about. Lookups are linear
    in the number of nodes, which is bounded at 4096.
  - `depth`, `sort`: the critical-path depth that orders the ready view.
  - `snap`: the snapshot format, encoded and decoded exactly. `work.bin`
    holds this library's own little-endian format (a format string, the two
    counters, then each node's fields with length-prefixed lists and text);
    it is not a Cap'n Proto message, and hosts read it through
    `WorkGraph::load_dir`/`open_dir` rather than mapping a schema over it.
  - `json`: the `list --json` output and the names file, with strings written
    and objects read by `serde_json`.
  - `laws`: what holds across operations — dependencies stay acyclic and
    listed once, parents stay a forest, terminal is sticky, only finished work
    is archived, one live claim per identity, an upsert cannot touch a held
    node, ready means the dependencies are done, a generation wins once, the
    ready view is claimable, and a saved graph loads back; and, putting them
    together, every graph reached from the empty one passes `verify`.
  - `forest`, `handles`, `pane`: the pane's tree, names and key handling.
  - `cli`, `seat`, `args`, `prompts`: the command line's verbs, where the graph
    lives and who a seat is, and the server's arguments and prompt texts.
- `app/` — the program around it: argument parsing, the directory lock, the
  snapshot file, JSON output and the terminal.
- `tests/` — the library's tests.
