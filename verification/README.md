# an_agent

A single-user agent kernel: an agent talks to a chat-completions model,
runs tools under permission tags, and records every utterance, action and
observation on an append-only JSONL tape. Around it sit sub-workplaces
whose file versions are published as views, a two-layer context (tape
plus frozen markdown cuts), a registry of agent cards, and the rules of a
steward that seats child agents in a tree: which seats a tape restores,
how a cancel propagates, what its records hold. The steward's runtime
itself (spawning, leases, mail) is not part of this crate.

The library in `src/` is written in Verus: each public function carries a
contract and is proved against it.

- `act/` — permission tags, act sentences, the effect a tag declares, the
  tool registry, and the plan of a tool call.
- `agent.rs`, `model.rs` — the chat transcript, when the loop is idle, and
  how a model reply becomes an assistant turn.
- `memstream/` — tape events and the tape's line discipline: scanning,
  quarantining a torn tail, numbering, stamping and framing appends.
- `instance/` — a live agent bound to its session, seat tree (with cancel
  propagation), turn pool, steward rules and records, context
  assembly and cuts, projection recovery, workplace views (write, close,
  resolve, rollback with cascades) and sub-workplace access.
- `principal/` — agent cards, what a card builds, registry ids, hashes and
  lineage, and the stdin counterpart id.
- `tools/` — the tool descriptor (YAML) parser and the bash tool's report.
- `workplace/` — object ids, resource mnemonics, and tree objects.
- `det_seam/`, `entropy.rs` — clock and randomness; a seeded source
  reproduces the same bytes, and so the same ids, from the same seed.

`app/` is the interactive program and what touches the disk or the
network: stdin, the tape file, session and workplace directories, the
HTTP call to the model and the bash process. `tests/` runs the library on concrete
values.
