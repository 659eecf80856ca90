# sword_utilfuns

Small string utilities — whitespace stripping, ASCII case-insensitive search
and comparison (in the manner of C's `stristr`, `strnicmp` and `stricmp`) and
lossy UTF-8 repair — written in Verus and proved against a mathematical model.

- `src/model.rs`: the model (ASCII folding, the C-style comparison, matches of
  a needle, trimming of a sequence) and the lemmas the proofs share.
- `src/lib.rs`: the crate-level functions; `strstrip` strips Unicode
  whitespace.
- `src/utilstr.rs`: the same family working on UTF-8 bytes; its `strstrip`
  strips ASCII blanks only.
- `src/laws.rs`: properties over all inputs (antisymmetry of the comparison,
  case insensitivity, idempotent stripping, ...).
- `src/std_calls.rs`: the std calls whose behaviour is trusted.
- `app/`: the C ABI entry points, which read and write raw NUL-terminated
  buffers and call the library for the work.
