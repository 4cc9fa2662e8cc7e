# v_escape

Verified code generation for byte-escaping types, and an HTML escaper.

- `src/generator.rs`: the escape rules (`Pair`), the `Generator` that writes
  the static tables, the scalar and vector modules and the selection macro
  call, and `generate`. Each writer states the exact text it produces, at
  whatever indentation the buffer is at.
- `src/ranges.rs`: the description of the escaped bytes used by the vector
  code (`spec_ranges`), its reading as a byte mask (`selects`), and the
  proofs that the mask flags every escaped byte, flags exactly the escaped
  bytes when there are at most two gaps, leaves out the two widest gaps and
  nothing else, moves with the bytes, and that no three ranges holding the
  escaped bytes leave out more than two gaps.
- `src/buffer.rs`: the indenting text buffer and its block laws.
- `src/text.rs`: decimal formatting, and the trusted calls into `std`
  (`String::push`, `str::from_utf8`, `Debug` formatting).
- `src/html.rs`: `HTMLEscape` and the laws of HTML escaping.
