# cargo-vibe

`cargo vibe` runs four tools over a Rust project and acts on what they report:
`cargo-context`, `diff-risk`, `cargo-impact` and `spec-drift`. It is written in Rust and
verified with Verus.

- `src/` is the verified library. It makes every decision: the command lines
  (`config`, `command`), the findings out of the tools' reports (`diff_risk`,
  `tool_report`, `finding`, `check`), the linter's suggestions and how they change a file
  (`json`, `suggestion`, `edit`, `path`, `apply`, `heal`), and the steps of the fix loop
  (`fix`). `text`, `number` and `order` are the groundwork.
- `app/` is the program around it: it parses the command line, runs the tools, reads and
  writes files, and prints.
- `tests/` runs the library.

Loops that alternate outside work and decisions are step functions in the library: a stage
says what is to be done, the program does it and hands back an event. The laws that hold of
every sequence of events are the public proof functions whose names begin with `law_`.

Two things are taken on trust: `String::push` of std, and `serde_json::from_str` in
`json.rs`.
