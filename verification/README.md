# servo_components

Verified components of a web engine, written in Verus. Each module of
`src/` states what its functions do in `requires`/`ensures` contracts over
mathematical models (sequences, maps, sets and views of the data types),
and proves them; the laws that relate several functions are public proof
functions.

- `src/`: the verified library, one module per component.
- `tests/`: tests of the library on concrete values.
- `app/`: what stays outside the library: the devtools TCP connection,
  the memory profiler's thread and printed report, the HTML parser driving
  the library's tree sink, and floating-point helpers.

Calls into outside crates (`url`, `encoding_rs`, `rand`, `uuid`) go through
small trusted wrappers whose contracts say what those crates document.
