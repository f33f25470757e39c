# instrumentrs

Building blocks for instrument drivers, verified with Verus.

- `src/` is the verified library:
  - `cmd`, `template`: command strings with `{}` / `{N}` placeholders, their delimiters and
    orders, and formatting with one argument.
  - `command_parser`, `placeholder`: checking command strings with `{}`, `{P}`, `{:B}` and
    `{P:B}` placeholders and choosing the parser that the answers need.
  - `delimited_parser`: parsing instrument answers whose values are separated by delimiters.
  - `parameter`: what a derived instrument parameter does: writing a struct's fields into its
    command, reading them back out of an answer, finding an enum's variant from its text, and
    the checks made when the implementation is derived.
  - `transport`: the byte interface of an instrument and the transport functions over it.
  - `mock_interface`: a mock interface for testing drivers, with its model and errors.
  - `pretty`: coloring mock error messages for a terminal.
  - `silent_interval`, `error_aggregator`, `errors`, `sort`, `text`: supporting pieces.
- `app/` holds what talks to the outside world: adapters from standard readers and writers to
  the transport functions, asynchronous transport, the mock interface as a reader and writer,
  displayable error types, test macros, and the code generation of the `Parameter` derive.
- `tests/` runs the library on concrete values.
