# macro_plugins

Verified logic of two macro expanders and two low-level experiments, written
in Verus.

- `src/asm_format`: `asm_format!`, inline assembly with named and positional
  operands. The library reads option words, classifies operands, gives each
  `{..}` placeholder an output or input slot, binds the slots to operands and
  writes the template with `$n` operand numbers (`expand_call` for a whole
  call; `read_operands` and `expand_asm_format` for its two halves).
  `find_abort` tells beforehand which templates the expansion does not
  accept.
- `src/macro_regex`: `macro_regex!`, which compiles a macro matcher into
  instructions (`Program::new`) and runs them with a Pike VM over a token
  stream (`run`). `vm.rs` states the VM's passes as a state machine;
  `nfa.rs` proves the VM against it and, for token-only patterns, against a
  set-based matching semantics.
- `src/vectrivec.rs`: a vector of segments of eight hashes, keys and values,
  cursors over it, and update rounds that walk it in different ways.
- `src/hashing.rs`: a run-merging scan over a byte slice.

`tests/` exercises the library on concrete values. `app/` holds what cannot
be verified: a `main` with timing loops and the expanders driven on
already-tokenized input, printing what they print.
