# mnemesis

A registry of project contracts for AI agents. A contract names a project,
describes it, and lists its inputs; each input has the file and directory
outputs it is expected to produce and typed outcome actions with
instructions. Committed contracts live in `<root>/projects/<name>.yaml`,
working copies in `<root>/drafts/<name>.yaml`.

The library under `src/` is written in Verus and proved against its
contracts:

- `model` — the contract types, their views, and the validation rules
  (first broken rule reported; success exactly when every rule holds).
- `diff` — field-level changes between two contracts, each at a stable
  path such as `inputs[deploy].actions[successful-deploy].instructions`.
- `workflow` — which changes a save accepts (`--yes`, or `--accept`
  path prefixes), the contract that accepting them gives, and what `load`
  and `save` answer.
- `selective` — what a save with accepted paths writes: against the
  registry's contract it has exactly the changes of the draft that the
  accepted paths take (a new input, output or action comes in whole, when
  its own path is accepted), and the answer lists their paths; accepting
  every listed path gives what `--yes` gives.
- `search` — text normalisation and the whole-number features of a match.
- `store` — where each file of the store lives, and the checks that every
  read and write makes.
- `text` — characters, white space, decimal numerals.
- `paths`, `diff_laws`, `mirror`, `agreement` — laws of the diff between
  valid contracts: paths are distinct and follow the path grammar, a
  modification always changes a value, an added input is reported once and
  a removed one has nothing below it, the two directions of a diff mirror
  each other's modifications, and the diff is empty exactly when the
  contracts agree up to the order of their items.

`app/` is the command-line program (`mnemesis load <query>`,
`mnemesis save <project> [--yes] [--accept <path>]...`, `mnemesis --schema`):
file access, the environment, YAML/JSON, and the floating-point ranking of
search candidates.
