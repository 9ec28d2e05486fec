# nitera

A policy engine for filesystem, process and network access. A `.nitera`
policy lists `allow`, `ask` and `deny` rules; a request is denied when a
deny rule matches it, asked when an ask rule does, allowed when only an
allow rule does, and denied when nothing matches.

The library in `src/` is verified with Verus:

- `text`: character-sequence helpers (splitting, trimming, joining).
- `policy::parser`: the `.nitera` format, with `parse` proved to return
  exactly the policy or the first error that the line-by-line reading gives.
- `policy::path`: lexical `~` expansion and `.`/`..` resolution.
- `policy::matcher`: segment-wise glob matching (`*`, `**`) and host patterns.
- `policy::evaluate`: `Policy::evaluate`, proved equal to the decision
  algorithm stated in `evaluation`, and the precedence laws.
- `policy::prepared`: patterns normalized once, with a sorted prefix index
  for large selective rule sets; `PreparedPolicy::evaluate` is proved to
  decide exactly as `Policy::evaluate` for every request and home directory.
- `nitera`: the engine value, authorization of a decision with an optional
  approval handler, and policy file names.

`app/` holds what performs I/O: loading a policy file, reading `HOME`, and
the guarded `read`, `write`, `delete`, `create`, `create_dir`, `execute` and
`connect` operations, each authorized by the library before it runs.
