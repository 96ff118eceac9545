# crs-core

The core of a hook pipeline that course-corrects shell commands issued by a
coding agent: rules that block commands, learning from repeated failures,
rewrites, output filters, tool swaps, and the analyses built on the session
history. The library is written in Verus; each public function carries a
contract over mathematical models, and the laws it keeps are proof functions.

## Layout

- `src/` — the verified library.
  - Commands: `pipeline` (sequential segments and pipe stages), `shell`
    (word splitting), `rules` (block decisions), `state` (failure learning),
    `expand` (variable expansion), `rewrite`, `filters`, `tool_swap`.
  - Hooks: `hooks` (the declarative hook pipeline as a step machine),
    `chain` (how hook outcomes combine), `concrete` (the hooks over loaders
    and stores), `log` (hook log queries), `capture` (suggestion records),
    `config` (path and protocol resolution, upward search).
  - Analyses: `history` (discovery of frequent commands), `suggest`,
    `replay`, `heat`, `insights`.
  - Foundations: `text`, `date`, `digest`, `matcher`, `paths`, `clock`.
    The calls into `regex`, `shell-words`, `sha2` and `hex`, and into the
    parts of std that vstd does not specify, stand behind small trusted
    wrappers whose contracts name what the outside code returns.
- `app/` — ordinary Rust around the library: reading and writing the
  JSON, TOML and YAML files (serde copies of the library's types), the redb
  hook log, running side-effect commands, the harness protocol, the hook
  chain over trait objects, and the statistics and analysis reports that
  carry floating-point numbers.
- `tests/` — tests of the library.
